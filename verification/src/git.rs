//! Reading Git's machine-readable output, and the decisions that `gwt` takes
//! on what it read.
use vstd::prelude::*;
use vstd::utf8::{decode_utf8, valid_utf8};
use crate::text::{contains_chars, contains_text, join, joined, push_text, texts, chars_of, decode_lossy, lossy_utf8, owned, same_chars, starts_with_chars, push_char};
use crate::types::{BranchCandidate, Availability, StatusCounts, Worktree, WorktreeModel, fresh_record, opt_text};

verus! {

/// A failure reported by Git or by running it.
#[derive(Debug)]
pub struct GitError(pub String);

/// `s` cut at every `sep`, as `split` on a slice does: one more piece than
/// there are separators, empty pieces included.
pub open spec fn split(s: Seq<u8>, sep: u8) -> Seq<Seq<u8>>
    decreases s.len(),
{
    if s.len() == 0 {
        seq![Seq::empty()]
    } else {
        let p = split(s.drop_last(), sep);
        if s.last() == sep {
            p.push(Seq::empty())
        } else {
            p.update(p.len() - 1, p.last().push(s.last()))
        }
    }
}

pub proof fn lemma_split_nonempty(s: Seq<u8>, sep: u8)
    ensures
        split(s, sep).len() >= 1,
    decreases s.len(),
{
    if s.len() > 0 {
        lemma_split_nonempty(s.drop_last(), sep);
    }
}

/// The views of byte slices.
pub open spec fn byte_views(v: Seq<&[u8]>) -> Seq<Seq<u8>> {
    v.map_values(|s: &[u8]| s@)
}

/// Cuts `input` at every `sep`.
pub fn split_bytes<'a>(input: &'a [u8], sep: u8) -> (v: Vec<&'a [u8]>)
    ensures
        byte_views(v@) == split(input@, sep),
{
    let mut v: Vec<&'a [u8]> = Vec::new();
    let mut start: usize = 0;
    let mut i: usize = 0;
    assert(input@.take(0) =~= Seq::<u8>::empty());
    assert(byte_views(v@) =~= Seq::<Seq<u8>>::empty());
    assert(input@.subrange(0, 0) =~= Seq::<u8>::empty());
    while i < input.len()
        invariant
            0 <= start <= i <= input.len(),
            byte_views(v@).push(input@.subrange(start as int, i as int)) =~= split(input@.take(i as int), sep),
        decreases input.len() - i,
    {
        let ghost before = input@.take(i as int);
        assert(input@.take(i + 1).drop_last() =~= before);
        assert(input@.take(i + 1).last() == input@[i as int]);
        proof {
            lemma_split_nonempty(before, sep);
        }
        if input[i] == sep {
            let piece = &input[start..i];
            v.push(piece);
            start = i + 1;
            assert(input@.subrange(start as int, i + 1) =~= Seq::<u8>::empty());
            assert(byte_views(v@).push(input@.subrange(start as int, i + 1)) =~= split(input@.take(i + 1), sep));
        } else {
            assert(input@.subrange(start as int, i + 1) =~= input@.subrange(start as int, i as int).push(input@[i as int]));
            assert(byte_views(v@).push(input@.subrange(start as int, i + 1)) =~= split(input@.take(i + 1), sep));
        }
        i += 1;
    }
    let piece = &input[start..input.len()];
    v.push(piece);
    assert(input@.take(input@.len() as int) =~= input@);
    v
}

/// File counts kept as natural numbers.
pub struct Tally {
    pub conflicted: nat,
    pub staged: nat,
    pub modified: nat,
    pub untracked: nat,
}

/// Whether an entry begins with the byte `a` and a space.
pub open spec fn tagged(e: Seq<u8>, a: u8) -> bool {
    e.len() >= 2 && e[0] == a && e[1] == 32
}

/// Whether column `k` of an entry is something other than `.` (or missing).
pub open spec fn marked(e: Seq<u8>, k: int) -> bool {
    !(e.len() > k && e[k] == 46)
}

/// What the `git status --porcelain=v2 -z` entries from index `i` on add up
/// to: `?` untracked, `u` conflicted, `1`/`2` staged when the index column is
/// not `.` and modified when the work-tree column is not `.`; a `2` (rename)
/// entry is followed by the path it was renamed from, which is skipped.
pub open spec fn tally_from(es: Seq<Seq<u8>>, i: int) -> Tally
    decreases es.len() - i,
{
    if i < 0 || i >= es.len() {
        Tally { conflicted: 0, staged: 0, modified: 0, untracked: 0 }
    } else {
        let e = es[i];
        if tagged(e, 63) {
            let r = tally_from(es, i + 1);
            Tally { untracked: r.untracked + 1, ..r }
        } else if tagged(e, 117) {
            let r = tally_from(es, i + 1);
            Tally { conflicted: r.conflicted + 1, ..r }
        } else if tagged(e, 49) || tagged(e, 50) {
            let r = tally_from(es, if tagged(e, 50) && i + 2 <= es.len() { i + 2 } else { i + 1 });
            Tally {
                staged: r.staged + (if marked(e, 2) { 1nat } else { 0nat }),
                modified: r.modified + (if marked(e, 3) { 1nat } else { 0nat }),
                ..r
            }
        } else {
            tally_from(es, i + 1)
        }
    }
}

/// Whether counts equal a tally.
pub open spec fn counts_match(c: StatusCounts, t: Tally) -> bool {
    c.conflicted == t.conflicted && c.staged == t.staged && c.modified == t.modified
        && c.untracked == t.untracked
}

fn is_tagged(e: &[u8], a: u8) -> (r: bool)
    ensures
        r == tagged(e@, a),
{
    e.len() >= 2 && e[0] == a && e[1] == 32u8
}

fn is_marked(e: &[u8], k: usize) -> (r: bool)
    ensures
        r == marked(e@, k as int),
{
    !(e.len() > k && e[k] == 46u8)
}

/// The counts that the output of `git status --porcelain=v2 -z` adds up to.
pub open spec fn status_counts(input: Seq<u8>) -> StatusCounts {
    let t = tally_from(split(input, 0), 0);
    StatusCounts {
        conflicted: t.conflicted as usize,
        staged: t.staged as usize,
        modified: t.modified as usize,
        untracked: t.untracked as usize,
    }
}

/// Counts conflicted, staged, modified and untracked files in the output of
/// `git status --porcelain=v2 -z`.
pub fn parse_status(input: &[u8]) -> (c: StatusCounts)
    ensures
        counts_match(c, tally_from(split(input@, 0), 0)),
        c == status_counts(input@),
{
    let entries = split_bytes(input, 0);
    let ghost es = byte_views(entries@);
    let mut c = StatusCounts { conflicted: 0, staged: 0, modified: 0, untracked: 0 };
    let mut i: usize = 0;
    while i < entries.len()
        invariant
            es == byte_views(entries@),
            0 <= i <= entries.len(),
            c.conflicted <= i && c.staged <= i && c.modified <= i && c.untracked <= i,
            ({
                let rest = tally_from(es, i as int);
                let all = tally_from(es, 0);
                &&& all.conflicted == c.conflicted + rest.conflicted
                &&& all.staged == c.staged + rest.staged
                &&& all.modified == c.modified + rest.modified
                &&& all.untracked == c.untracked + rest.untracked
            }),
        decreases entries.len() - i,
    {
        let e = entries[i];
        assert(e@ == es[i as int]);
        if is_tagged(e, 63u8) {
            c.untracked = c.untracked + 1;
            i += 1;
        } else if is_tagged(e, 117u8) {
            c.conflicted = c.conflicted + 1;
            i += 1;
        } else if is_tagged(e, 49u8) || is_tagged(e, 50u8) {
            if is_marked(e, 2) {
                c.staged = c.staged + 1;
            }
            if is_marked(e, 3) {
                c.modified = c.modified + 1;
            }
            if is_tagged(e, 50u8) {
                if i + 1 < entries.len() {
                    i += 2;
                } else {
                    i = entries.len();
                }
            } else {
                i += 1;
            }
        } else {
            i += 1;
        }
    }
    assert(es == split(input@, 0));
    assert(c == status_counts(input@));
    c
}

/// Index of the first space in `t`, or its length when there is none.
pub open spec fn space_index(t: Seq<char>) -> nat
    decreases t.len(),
{
    if t.len() == 0 {
        0
    } else if t[0] == ' ' {
        0
    } else {
        1 + space_index(t.drop_first())
    }
}

/// The text before the first space.
pub open spec fn key_of(t: Seq<char>) -> Seq<char> {
    t.take(space_index(t) as int)
}

/// The text after the first space, or nothing when there is no space.
pub open spec fn value_of(t: Seq<char>) -> Seq<char> {
    if space_index(t) < t.len() {
        t.skip(space_index(t) + 1int)
    } else {
        Seq::empty()
    }
}

/// A branch reference without its `refs/heads/` prefix.
pub open spec fn short_branch(v: Seq<char>) -> Seq<char> {
    if v.len() >= 11 && v.take(11) == "refs/heads/"@ {
        v.skip(11)
    } else {
        v
    }
}

/// What one `key value` attribute line does to the record it belongs to.
pub open spec fn apply_attribute(item: WorktreeModel, key: Seq<char>, value: Seq<char>) -> WorktreeModel {
    if key == "HEAD"@ {
        WorktreeModel { head: value, ..item }
    } else if key == "branch"@ {
        WorktreeModel { branch: Some(short_branch(value)), ..item }
    } else if key == "detached"@ {
        WorktreeModel { detached: true, ..item }
    } else if key == "bare"@ {
        WorktreeModel { bare: true, ..item }
    } else if key == "locked"@ {
        WorktreeModel { locked: Some(value), ..item }
    } else if key == "prunable"@ {
        WorktreeModel { prunable: Some(value), ..item }
    } else {
        item
    }
}

/// Appends a finished record; the first one listed is Git's main worktree,
/// unless the repository is bare.
pub open spec fn push_record(records: Seq<WorktreeModel>, item: WorktreeModel) -> Seq<WorktreeModel> {
    if records.len() == 0 {
        records.push(WorktreeModel { main: !item.bare, ..item })
    } else {
        records.push(item)
    }
}

/// Records finished so far, and the one being read.
pub struct Scan {
    pub records: Seq<WorktreeModel>,
    pub current: Option<WorktreeModel>,
}

/// Closes the record being read, if any.
pub open spec fn close(st: Scan) -> Seq<WorktreeModel> {
    match st.current {
        Some(item) => push_record(st.records, item),
        None => st.records,
    }
}

/// What one NUL-terminated field of `git worktree list --porcelain -z` does:
/// an empty field ends the record, `worktree <path>` starts one, and other
/// fields set attributes of the record being read (ignored outside a record).
pub open spec fn step(st: Scan, field: Seq<u8>) -> Scan {
    if field.len() == 0 {
        Scan { records: close(st), current: None }
    } else {
        let t = lossy_utf8(field);
        let key = key_of(t);
        let value = value_of(t);
        if key == "worktree"@ {
            Scan { records: close(st), current: Some(fresh_record(value)) }
        } else {
            match st.current {
                None => st,
                Some(item) => Scan { records: st.records, current: Some(apply_attribute(item, key, value)) },
            }
        }
    }
}

/// The state after reading the given fields in order.
pub open spec fn scan(fields: Seq<Seq<u8>>) -> Scan
    decreases fields.len(),
{
    if fields.len() == 0 {
        Scan { records: Seq::empty(), current: None }
    } else {
        step(scan(fields.drop_last()), fields.last())
    }
}

/// The worktrees that `git worktree list --porcelain -z` output describes.
pub open spec fn parsed_worktrees(input: Seq<u8>) -> Seq<WorktreeModel> {
    close(scan(split(input, 0)))
}

proof fn lemma_space_index(t: Seq<char>, i: int)
    requires
        0 <= i <= t.len(),
        forall|j: int| 0 <= j < i ==> t[j] != ' ',
        i == t.len() || t[i] == ' ',
    ensures
        space_index(t) == i,
    decreases i,
{
    if i > 0 {
        assert forall|j: int| 0 <= j < i - 1 implies t.drop_first()[j] != ' ' by {
            assert(t.drop_first()[j] == t[j + 1]);
        }
        lemma_space_index(t.drop_first(), i - 1);
    }
}

/// The key and the value of one field.
fn key_value(field: &[u8]) -> (r: (Vec<char>, String))
    ensures
        r.0@ == key_of(lossy_utf8(field@)),
        r.1@ == value_of(lossy_utf8(field@)),
        valid_utf8(field@) ==> lossy_utf8(field@) == decode_utf8(field@),
{
    let text = decode_lossy(field);
    let cs = chars_of(text.as_str());
    let mut i: usize = 0;
    while i < cs.len() && cs[i] != ' '
        invariant
            0 <= i <= cs.len(),
            forall|j: int| 0 <= j < i ==> cs@[j] != ' ',
        decreases cs.len() - i,
    {
        i += 1;
    }
    proof {
        lemma_space_index(cs@, i as int);
    }
    let mut key: Vec<char> = Vec::new();
    let mut k: usize = 0;
    while k < i
        invariant
            i <= cs.len(),
            0 <= k <= i,
            key@ == cs@.take(k as int),
        decreases i - k,
    {
        key.push(cs[k]);
        k += 1;
        assert(cs@.take(k as int) =~= cs@.take(k - 1).push(cs@[k - 1]));
    }
    let mut value = String::new();
    if i < cs.len() {
        let mut m: usize = i + 1;
        while m < cs.len()
            invariant
                i < cs.len(),
                i + 1 <= m <= cs.len(),
                value@ == cs@.subrange(i + 1, m as int),
            decreases cs.len() - m,
        {
            push_char(&mut value, cs[m]);
            m += 1;
            assert(cs@.subrange(i + 1, m as int) =~= cs@.subrange(i + 1, m - 1).push(cs@[m - 1]));
        }
        assert(cs@.subrange(i + 1, cs@.len() as int) =~= cs@.skip(i + 1));
    } else {
        assert(value@ =~= Seq::<char>::empty());
    }
    (key, value)
}

/// Whether `key` is the given word.
fn is_key(key: &Vec<char>, word: &str) -> (r: bool)
    ensures
        r == (key@ == word@),
{
    let w = chars_of(word);
    same_chars(key.as_slice(), w.as_slice())
}

fn strip_heads(value: String) -> (r: String)
    ensures
        r@ == short_branch(value@),
{
    let cs = chars_of(value.as_str());
    let prefix = chars_of("refs/heads/");
    proof {
        reveal_strlit("refs/heads/");
    }
    if starts_with_chars(cs.as_slice(), prefix.as_slice()) {
        let mut r = String::new();
        let mut m: usize = prefix.len();
        while m < cs.len()
            invariant
                prefix@.len() == 11,
                11 <= m <= cs.len(),
                r@ == cs@.subrange(11, m as int),
            decreases cs.len() - m,
        {
            push_char(&mut r, cs[m]);
            m += 1;
            assert(cs@.subrange(11, m as int) =~= cs@.subrange(11, m - 1).push(cs@[m - 1]));
        }
        assert(cs@.subrange(11, cs@.len() as int) =~= cs@.skip(11));
        r
    } else {
        value
    }
}

/// The model of an optional record.
pub open spec fn opt_model(o: Option<Worktree>) -> Option<WorktreeModel> {
    match o {
        Some(w) => Some(w@),
        None => None,
    }
}

fn add_record(records: &mut Vec<Worktree>, item: Worktree)
    ensures
        crate::table::models(final(records)@) == push_record(crate::table::models(old(records)@), item@),
{
    let ghost m0 = item@;
    let mut item = item;
    if records.len() == 0 {
        item.main = !item.bare;
    }
    records.push(item);
    assert(crate::table::models(records@) =~= push_record(crate::table::models(old(records)@), m0));
}

fn close_current(records: &mut Vec<Worktree>, current: Option<Worktree>)
    ensures
        crate::table::models(final(records)@) == close(Scan { records: crate::table::models(old(records)@), current: opt_model(current) }),
{
    match current {
        Some(item) => add_record(records, item),
        None => {},
    }
}

fn apply_to(item: Worktree, key: &Vec<char>, value: String) -> (r: Worktree)
    ensures
        r@ == apply_attribute(item@, key@, value@),
{
    let mut item = item;
    if is_key(key, "HEAD") {
        item.head = value;
    } else if is_key(key, "branch") {
        item.branch = Some(strip_heads(value));
    } else if is_key(key, "detached") {
        item.detached = true;
    } else if is_key(key, "bare") {
        item.bare = true;
    } else if is_key(key, "locked") {
        item.locked = Some(value);
    } else if is_key(key, "prunable") {
        item.prunable = Some(value);
    }
    item
}

/// Reads the worktrees listed by `git worktree list --porcelain -z`. The first
/// record is marked as Git's main worktree unless it is a bare repository.
pub fn parse_worktrees(input: &[u8]) -> (r: Vec<Worktree>)
    ensures
        crate::table::models(r@) == parsed_worktrees(input@),
        forall|k: int|
            0 <= k < split(input@, 0).len() && valid_utf8(#[trigger] split(input@, 0)[k]) && split(
                input@,
                0,
            )[k].len() > 0 ==> lossy_utf8(split(input@, 0)[k]) == decode_utf8(split(input@, 0)[k]),
{
    let fields = split_bytes(input, 0);
    let ghost fs = byte_views(fields@);
    let mut records: Vec<Worktree> = Vec::new();
    let mut current: Option<Worktree> = None;
    let mut i: usize = 0;
    assert(fs.take(0) =~= Seq::<Seq<u8>>::empty());
    assert(crate::table::models(records@) =~= Seq::<WorktreeModel>::empty());
    while i < fields.len()
        invariant
            fs == byte_views(fields@),
            0 <= i <= fields.len(),
            scan(fs.take(i as int)) == (Scan { records: crate::table::models(records@), current: opt_model(current) }),
            forall|k: int|
                0 <= k < i && valid_utf8(#[trigger] fs[k]) && fs[k].len() > 0 ==> lossy_utf8(fs[k]) == decode_utf8(fs[k]),
        decreases fields.len() - i,
    {
        let raw = fields[i];
        assert(raw@ == fs[i as int]);
        assert(fs.take(i + 1).drop_last() =~= fs.take(i as int));
        assert(fs.take(i + 1).last() == raw@);
        let ghost before = Scan { records: crate::table::models(records@), current: opt_model(current) };
        if raw.len() == 0 {
            let taken = current;
            close_current(&mut records, taken);
            current = None;
        } else {
            let (key, value) = key_value(raw);
            if is_key(&key, "worktree") {
                let taken = current;
                close_current(&mut records, taken);
                current = Some(Worktree::record(value));
            } else {
                current = match current {
                    Some(item) => Some(apply_to(item, &key, value)),
                    None => None,
                };
            }
        }
        assert(step(before, raw@) == (Scan { records: crate::table::models(records@), current: opt_model(current) }));
        i += 1;
    }
    assert(fs.take(fields@.len() as int) =~= fs);
    assert(fs == split(input@, 0));
    close_current(&mut records, current);
    records
}

/// The branch names of `git for-each-ref`-style output: one per line, empty
/// lines skipped.
pub open spec fn branch_lines(fields: Seq<Seq<u8>>) -> Seq<Seq<char>>
    decreases fields.len(),
{
    if fields.len() == 0 {
        Seq::empty()
    } else {
        let before = branch_lines(fields.drop_last());
        if fields.last().len() == 0 {
            before
        } else {
            before.push(lossy_utf8(fields.last()))
        }
    }
}

/// Reads local branch names, one per line.
pub fn parse_branches(input: &[u8]) -> (names: Vec<String>)
    ensures
        crate::text::texts(names@) == branch_lines(split(input@, 10)),
        forall|k: int|
            0 <= k < split(input@, 10).len() && valid_utf8(#[trigger] split(input@, 10)[k]) && split(
                input@,
                10,
            )[k].len() > 0 ==> lossy_utf8(split(input@, 10)[k]) == decode_utf8(split(input@, 10)[k]),
{
    let fields = split_bytes(input, 10);
    let ghost fs = byte_views(fields@);
    let mut names: Vec<String> = Vec::new();
    let mut i: usize = 0;
    assert(fs.take(0) =~= Seq::<Seq<u8>>::empty());
    assert(crate::text::texts(names@) =~= Seq::<Seq<char>>::empty());
    while i < fields.len()
        invariant
            fs == byte_views(fields@),
            0 <= i <= fields.len(),
            crate::text::texts(names@) == branch_lines(fs.take(i as int)),
            forall|k: int|
                0 <= k < i && valid_utf8(#[trigger] fs[k]) && fs[k].len() > 0 ==> lossy_utf8(fs[k]) == decode_utf8(fs[k]),
        decreases fields.len() - i,
    {
        let raw = fields[i];
        assert(raw@ == fs[i as int]);
        assert(fs.take(i + 1).drop_last() =~= fs.take(i as int));
        assert(fs.take(i + 1).last() == raw@);
        if raw.len() > 0 {
            let name = decode_lossy(raw);
            let ghost prev = names@;
            names.push(name);
            assert(crate::text::texts(names@) =~= crate::text::texts(prev).push(name@));
        }
        i += 1;
    }
    assert(fs.take(fields@.len() as int) =~= fs);
    assert(fs == split(input@, 10));
    names
}

/// Whether a worktree may be offered for removal: not the main worktree, not
/// the one holding the current directory, and available (so not bare,
/// prunable or missing). Dirty and locked worktrees qualify.
pub open spec fn removable(w: WorktreeModel) -> bool {
    !w.main && !w.current && w.availability == Availability::Available
}

/// The removable worktrees among `ws`, in order.
pub open spec fn removable_among(ws: Seq<WorktreeModel>) -> Seq<WorktreeModel>
    decreases ws.len(),
{
    if ws.len() == 0 {
        Seq::empty()
    } else {
        let before = removable_among(ws.drop_last());
        if removable(ws.last()) {
            before.push(ws.last())
        } else {
            before
        }
    }
}

/// The worktrees that may be removed, in their listed order.
pub fn remove_candidates(worktrees: &[Worktree]) -> (r: Vec<Worktree>)
    ensures
        crate::table::models(r@) == removable_among(crate::table::models(worktrees@)),
{
    let ghost ws = crate::table::models(worktrees@);
    let mut r: Vec<Worktree> = Vec::new();
    let mut i: usize = 0;
    assert(ws.take(0) =~= Seq::<WorktreeModel>::empty());
    assert(crate::table::models(r@) =~= Seq::<WorktreeModel>::empty());
    while i < worktrees.len()
        invariant
            ws == crate::table::models(worktrees@),
            0 <= i <= worktrees.len(),
            crate::table::models(r@) == removable_among(ws.take(i as int)),
        decreases worktrees.len() - i,
    {
        let w = &worktrees[i];
        assert(ws.take(i + 1).drop_last() =~= ws.take(i as int));
        assert(ws.take(i + 1).last() == w@);
        if !w.main && !w.current && w.availability == Availability::Available {
            let c = w.clone();
            let ghost prev = r@;
            r.push(c);
            assert(crate::table::models(r@) =~= crate::table::models(prev).push(w@));
        }
        i += 1;
    }
    assert(ws.take(worktrees@.len() as int) =~= ws);
    r
}

/// The availability a listed worktree gets before its status is read.
pub open spec fn availability_of(w: WorktreeModel, present: bool) -> Availability {
    if w.prunable is Some {
        Availability::Prunable
    } else if w.bare {
        Availability::Bare
    } else if !present {
        Availability::Unavailable
    } else {
        Availability::Available
    }
}

/// Records whether the worktree holds the current directory and whether it
/// can be inspected (`present`: its directory is there).
pub fn settle_record(record: &mut Worktree, is_current: bool, present: bool)
    ensures
        final(record)@ == (WorktreeModel {
            current: is_current,
            availability: availability_of(old(record)@, present),
            ..old(record)@
        }),
{
    record.current = is_current;
    record.availability = if record.prunable.is_some() {
        Availability::Prunable
    } else if record.bare {
        Availability::Bare
    } else if !present {
        Availability::Unavailable
    } else {
        Availability::Available
    };
}

/// Records the outcome of reading an available worktree's status: the
/// counts when `git status` succeeded, otherwise the worktree is unavailable.
pub fn attach_status(record: &mut Worktree, output: Option<&[u8]>)
    ensures
        match output {
            Some(out) => final(record)@ == (WorktreeModel { status: Some(status_counts(out@)), ..old(record)@ }),
            None => final(record)@ == (WorktreeModel { availability: Availability::Unavailable, ..old(record)@ }),
        },
{
    match output {
        Some(out) => {
            let c = parse_status(out);
            record.status = Some(c);
        },
        None => {
            record.availability = Availability::Unavailable;
        },
    }
}

/// Whether Git is asked for a worktree's status: only when it is neither
/// prunable nor bare and its directory exists.
pub fn status_wanted(record: &Worktree, present: bool) -> (r: bool)
    ensures
        r == (availability_of(record@, present) == Availability::Available),
{
    record.prunable.is_none() && !record.bare && present
}

/// The bytes of an optional output.
pub open spec fn opt_bytes(o: Option<Vec<u8>>) -> Option<Seq<u8>> {
    match o {
        Some(v) => Some(v@),
        None => None,
    }
}

/// A listed worktree once everything about it is known: whether it holds the
/// current directory, its availability, and, when it is available, its
/// status (`output`: what `git status` printed, `None` when it failed).
pub open spec fn listed(
    w: WorktreeModel,
    is_current: bool,
    present: bool,
    output: Option<Seq<u8>>,
) -> WorktreeModel {
    let s = WorktreeModel { current: is_current, availability: availability_of(w, present), ..w };
    if s.availability == Availability::Available {
        match output {
            Some(o) => WorktreeModel { status: Some(status_counts(o)), ..s },
            None => WorktreeModel { availability: Availability::Unavailable, ..s },
        }
    } else {
        s
    }
}

/// The listing: each record settled (`current` is the index of the worktree
/// holding the current directory, `present[i]` whether record `i`'s directory
/// is there) and given the status that `outputs[i]` holds, in the same order.
pub fn assemble(
    records: &[Worktree],
    current: Option<usize>,
    present: &[bool],
    outputs: &[Option<Vec<u8>>],
) -> (r: Vec<Worktree>)
    requires
        present@.len() == records@.len(),
        outputs@.len() == records@.len(),
    ensures
        r@.len() == records@.len(),
        forall|i: int|
            0 <= i < r@.len() ==> #[trigger] r@[i]@ == listed(
                records@[i]@,
                current == Some(i as usize),
                present@[i],
                opt_bytes(outputs@[i]),
            ),
{
    let mut r: Vec<Worktree> = Vec::new();
    let mut i: usize = 0;
    while i < records.len()
        invariant
            present@.len() == records@.len(),
            outputs@.len() == records@.len(),
            0 <= i <= records@.len(),
            r@.len() == i,
            forall|j: int|
                0 <= j < i ==> #[trigger] r@[j]@ == listed(
                    records@[j]@,
                    current == Some(j as usize),
                    present@[j],
                    opt_bytes(outputs@[j]),
                ),
        decreases records@.len() - i,
    {
        let mut w = records[i].clone();
        let is_current = match current {
            Some(c) => c == i,
            None => false,
        };
        settle_record(&mut w, is_current, present[i]);
        if w.availability == Availability::Available {
            match &outputs[i] {
                Some(o) => attach_status(&mut w, Some(o.as_slice())),
                None => attach_status(&mut w, None),
            }
        }
        assert(w@ == listed(
            records@[i as int]@,
            current == Some(i),
            present@[i as int],
            opt_bytes(outputs@[i as int]),
        ));
        r.push(w);
        i += 1;
    }
    r
}

/// Byte length of a worktree's path.
pub open spec fn path_bytes(w: WorktreeModel) -> usize {
    vstd::utf8::encode_utf8(w.path).len() as usize
}

/// Among the first `n` worktrees that contain the current directory, the last
/// one with the longest path, or -1.
pub open spec fn deepest(ws: Seq<WorktreeModel>, inside: Seq<bool>, n: int) -> int
    decreases n,
{
    if n <= 0 {
        -1
    } else {
        let p = deepest(ws, inside, n - 1);
        if inside[n - 1] && (p < 0 || path_bytes(ws[n - 1]) >= path_bytes(ws[p])) {
            n - 1
        } else {
            p
        }
    }
}

proof fn lemma_deepest(ws: Seq<WorktreeModel>, inside: Seq<bool>, n: int)
    requires
        0 <= n <= inside.len(),
    ensures
        deepest(ws, inside, n) == -1 || (0 <= deepest(ws, inside, n) < n && inside[deepest(ws, inside, n)]),
    decreases n,
{
    if n > 0 {
        lemma_deepest(ws, inside, n - 1);
    }
}

/// The worktree holding the current directory: of those that contain it
/// (`inside`), the one with the longest path, the later one on a tie.
pub fn current_index(worktrees: &[Worktree], inside: &[bool]) -> (r: Option<usize>)
    requires
        inside@.len() == worktrees@.len(),
    ensures
        match r {
            Some(i) => i as int == deepest(crate::table::models(worktrees@), inside@, inside@.len() as int),
            None => deepest(crate::table::models(worktrees@), inside@, inside@.len() as int) == -1,
        },
        r matches Some(i) ==> i < worktrees@.len() && inside@[i as int],
{
    let ghost ws = crate::table::models(worktrees@);
    let mut best: Option<usize> = None;
    let mut best_len: usize = 0;
    let mut i: usize = 0;
    while i < inside.len()
        invariant
            inside@.len() == worktrees@.len(),
            ws == crate::table::models(worktrees@),
            0 <= i <= inside.len(),
            match best {
                Some(b) => b as int == deepest(ws, inside@, i as int) && b < i && best_len == path_bytes(ws[b as int]),
                None => deepest(ws, inside@, i as int) == -1,
            },
        decreases inside.len() - i,
    {
        proof {
            lemma_deepest(ws, inside@, i as int);
        }
        if inside[i] {
            let len = worktrees[i].path.as_str().len();
            assert(ws[i as int] == worktrees@[i as int]@);
            let take = match best {
                Some(_) => len >= best_len,
                None => true,
            };
            if take {
                best = Some(i);
                best_len = len;
            }
        }
        i += 1;
    }
    proof {
        lemma_deepest(ws, inside@, inside@.len() as int);
    }
    best
}

/// Who has `name` checked out: the path of the first worktree on that branch.
pub open spec fn occupant(ws: Seq<WorktreeModel>, name: Seq<char>) -> Option<Seq<char>>
    decreases ws.len(),
{
    if ws.len() == 0 {
        None
    } else if ws[0].branch == Some(name) {
        Some(ws[0].path)
    } else {
        occupant(ws.drop_first(), name)
    }
}

fn find_occupant(worktrees: &[Worktree], name: &String) -> (r: Option<String>)
    ensures
        opt_text(r) == occupant(crate::table::models(worktrees@), name@),
{
    let ghost ws = crate::table::models(worktrees@);
    let mut i: usize = 0;
    assert(ws.skip(0) =~= ws);
    while i < worktrees.len()
        invariant
            ws == crate::table::models(worktrees@),
            0 <= i <= worktrees.len(),
            occupant(ws, name@) == occupant(ws.skip(i as int), name@),
        decreases worktrees.len() - i,
    {
        let w = &worktrees[i];
        assert(ws.skip(i as int)[0] == w@);
        assert(ws.skip(i as int).drop_first() =~= ws.skip(i + 1));
        let on_branch = match &w.branch {
            Some(b) => *b == *name,
            None => false,
        };
        if on_branch {
            return Some(w.path.clone());
        }
        i += 1;
    }
    None
}

/// Local branches paired with the worktree that has each checked out.
pub fn mark_occupied(names: &Vec<String>, worktrees: &[Worktree]) -> (r: Vec<BranchCandidate>)
    ensures
        r@.len() == names@.len(),
        forall|i: int| 0 <= i < names@.len() ==> #[trigger] r@[i].name@ == names@[i]@
            && opt_text(r@[i].occupied_by) == occupant(crate::table::models(worktrees@), names@[i]@),
{
    let mut r: Vec<BranchCandidate> = Vec::new();
    let mut i: usize = 0;
    while i < names.len()
        invariant
            0 <= i <= names.len(),
            r@.len() == i,
            forall|k: int| 0 <= k < i ==> #[trigger] r@[k].name@ == names@[k]@
                && opt_text(r@[k].occupied_by) == occupant(crate::table::models(worktrees@), names@[k]@),
        decreases names.len() - i,
    {
        let occupied_by = find_occupant(worktrees, &names[i]);
        let ghost prev = r@;
        r.push(BranchCandidate { name: names[i].clone(), occupied_by });
        assert forall|k: int| 0 <= k < i + 1 implies #[trigger] r@[k].name@ == names@[k]@
            && opt_text(r@[k].occupied_by) == occupant(crate::table::models(worktrees@), names@[k]@) by {
            if k < i {
                assert(r@[k] == prev[k]);
            }
        }
        i += 1;
    }
    r
}

/// Why running Git failed: "not a git repository" in its message becomes a
/// short notice about `cwd`; anything else names the command and adds Git's
/// own message, if any.
pub open spec fn failure_text(args: Seq<Seq<char>>, detail: Seq<char>, cwd: Seq<char>) -> Seq<char> {
    if contains_text(detail, "not a git repository"@) {
        "Not a Git repository: "@ + cwd
    } else {
        "Git command failed: git "@ + joined(args, " "@) + (if detail.len() == 0 {
            Seq::empty()
        } else {
            "\n"@ + detail
        })
    }
}

/// The error for a Git command `args` that failed with the (trimmed) message
/// `detail` while run in `cwd`.
pub fn failure(args: &Vec<String>, detail: &str, cwd: &str) -> (e: GitError)
    ensures
        e.0@ == failure_text(texts(args@), detail@, cwd@),
{
    let d = chars_of(detail);
    let pat = chars_of("not a git repository");
    if contains_chars(d.as_slice(), pat.as_slice()) {
        let mut m = owned("Not a Git repository: ");
        push_text(&mut m, cwd);
        GitError(m)
    } else {
        let mut m = owned("Git command failed: git ");
        let a = join(args, " ");
        push_text(&mut m, a.as_str());
        if d.len() > 0 {
            push_text(&mut m, "\n");
            push_text(&mut m, detail);
        } else {
            assert(m@ + Seq::<char>::empty() =~= m@);
        }
        GitError(m)
    }
}

/// The error when Git cannot be started at all.
pub fn launch_failure() -> (e: GitError)
    ensures
        e.0@ == "Unable to run Git. Make sure 'git' is installed and available in PATH."@,
{
    GitError(owned("Unable to run Git. Make sure 'git' is installed and available in PATH."))
}

/// Removal is offered for exactly the removable worktrees: every candidate is
/// removable (neither main nor current, and available), and every removable
/// worktree is a candidate — dirty and locked ones included.
pub proof fn lemma_remove_candidates_exact(ws: Seq<WorktreeModel>)
    ensures
        forall|k: int| 0 <= k < removable_among(ws).len() ==> #[trigger] removable(removable_among(ws)[k]),
        forall|i: int| 0 <= i < ws.len() && removable(ws[i]) ==> #[trigger] removable_among(ws).contains(ws[i]),
    decreases ws.len(),
{
    if ws.len() > 0 {
        lemma_remove_candidates_exact(ws.drop_last());
        let before = removable_among(ws.drop_last());
        assert forall|i: int| 0 <= i < ws.len() && removable(ws[i]) implies #[trigger] removable_among(ws).contains(ws[i]) by {
            if i < ws.len() - 1 {
                assert(ws.drop_last()[i] == ws[i]);
                assert(removable(ws.drop_last()[i]));
                assert(before.contains(ws.drop_last()[i]));
                let k = choose|k: int| 0 <= k < before.len() && before[k] == ws[i];
                if removable(ws.last()) {
                    assert(removable_among(ws) == before.push(ws.last()));
                    assert(removable_among(ws)[k] == ws[i]);
                } else {
                    assert(removable_among(ws) == before);
                }
            } else {
                assert(removable_among(ws)[removable_among(ws).len() - 1] == ws[i]);
            }
        }
    }
}

/// The index of the first worktree marked as Git's main one, if any.
pub open spec fn first_main(ws: Seq<WorktreeModel>, n: int) -> Option<int>
    decreases n,
{
    if n <= 0 {
        None
    } else {
        match first_main(ws, n - 1) {
            Some(k) => Some(k),
            None => if ws[n - 1].main { Some(n - 1) } else { None },
        }
    }
}

proof fn lemma_first_main_stays(ws: Seq<WorktreeModel>, k: int, n: int)
    requires
        0 <= k < n,
        first_main(ws, k + 1) == Some(k),
    ensures
        first_main(ws, n) == Some(k),
    decreases n,
{
    if n > k + 1 {
        lemma_first_main_stays(ws, k, n - 1);
    }
}

/// The worktree whose directory names the project: Git's main worktree, or
/// the first one listed when none is marked main; `None` when there are none.
pub fn main_worktree(worktrees: &[Worktree]) -> (r: Option<usize>)
    ensures
        worktrees@.len() == 0 <==> r is None,
        r matches Some(i) ==> i < worktrees@.len() && i as int == (match first_main(
            crate::table::models(worktrees@),
            worktrees@.len() as int,
        ) {
            Some(k) => k,
            None => 0,
        }),
{
    let ghost ws = crate::table::models(worktrees@);
    let mut i: usize = 0;
    while i < worktrees.len()
        invariant
            0 <= i <= worktrees.len(),
            ws == crate::table::models(worktrees@),
            first_main(ws, i as int) is None,
        decreases worktrees.len() - i,
    {
        assert(ws[i as int] == worktrees@[i as int]@);
        if worktrees[i].main {
            proof {
                lemma_first_main_stays(ws, i as int, worktrees@.len() as int);
            }
            return Some(i);
        }
        i += 1;
    }
    if worktrees.len() == 0 {
        None
    } else {
        Some(0)
    }
}

/// Records that a scan has produced carry no status yet.
pub open spec fn status_unread(st: Scan) -> bool {
    &&& forall|i: int| 0 <= i < st.records.len() ==> (#[trigger] st.records[i]).status is None
    &&& st.current matches Some(item) ==> item.status is None
}

proof fn lemma_scan_status_unread(fields: Seq<Seq<u8>>)
    ensures
        status_unread(scan(fields)),
    decreases fields.len(),
{
    if fields.len() > 0 {
        lemma_scan_status_unread(fields.drop_last());
        let st = scan(fields.drop_last());
        let f = fields.last();
        if f.len() > 0 {
            let t = lossy_utf8(f);
            if key_of(t) != "worktree"@ {
                if let Some(item) = st.current {
                    let v = value_of(t);
                    assert(apply_attribute(item, key_of(t), v).status is None);
                }
            }
        }
    }
}

/// Parsed `git worktree list` output carries no status: it is read later.
pub proof fn lemma_parsed_status_unread(input: Seq<u8>)
    ensures
        forall|i: int| 0 <= i < parsed_worktrees(input).len() ==> (#[trigger] parsed_worktrees(input)[i]).status is None,
{
    lemma_scan_status_unread(split(input, 0));
}

/// What listing does to one parsed record: everything Git reported stays;
/// the record is current as told; it is prunable when Git says so, else bare
/// when bare, else unavailable when its directory is missing or `git status`
/// failed, else available with the counts that the status output adds up
/// to; it has a status exactly when it is available; and the status output
/// of a record that is not asked for its status is never looked at.
pub open spec fn listing_facts(w: WorktreeModel, is_current: bool, present: bool, output: Option<Seq<u8>>) -> bool {
    let l = listed(w, is_current, present, output);
    &&& l.path == w.path && l.head == w.head && l.branch == w.branch
    &&& l.detached == w.detached && l.bare == w.bare && l.locked == w.locked
    &&& l.prunable == w.prunable && l.main == w.main
    &&& l.current == is_current
    &&& w.prunable is Some ==> l.availability == Availability::Prunable
    &&& (w.prunable is None && w.bare) ==> l.availability == Availability::Bare
    &&& (w.prunable is None && !w.bare && (!present || output is None)) ==> l.availability
        == Availability::Unavailable
    &&& (w.prunable is None && !w.bare && present && output is Some) ==> (l.availability
        == Availability::Available && l.status == Some(status_counts(output->0)))
    &&& (l.status is Some <==> l.availability == Availability::Available)
    &&& availability_of(w, present) != Availability::Available ==> forall|other: Option<Seq<u8>>|
        #[trigger] listed(w, is_current, present, other) == l
}

/// Listing one record that has no status yet obeys [`listing_facts`].
pub proof fn lemma_listed(w: WorktreeModel, is_current: bool, present: bool, output: Option<Seq<u8>>)
    requires
        w.status is None,
    ensures
        listing_facts(w, is_current, present, output),
{
}

/// Listing the worktrees of `git worktree list` output: record `i` is the
/// `i`-th worktree Git reported, current exactly when `current` names it,
/// and obeys [`listing_facts`] with its own directory check and status
/// output.
pub proof fn lemma_listing(
    input: Seq<u8>,
    current: Option<usize>,
    present: Seq<bool>,
    outputs: Seq<Option<Seq<u8>>>,
)
    requires
        present.len() == parsed_worktrees(input).len(),
        outputs.len() == parsed_worktrees(input).len(),
    ensures
        forall|i: int|
            0 <= i < parsed_worktrees(input).len() ==> listing_facts(
                #[trigger] parsed_worktrees(input)[i],
                current == Some(i as usize),
                present[i],
                outputs[i],
            ),
{
    lemma_parsed_status_unread(input);
    assert forall|i: int| 0 <= i < parsed_worktrees(input).len() implies listing_facts(
        #[trigger] parsed_worktrees(input)[i],
        current == Some(i as usize),
        present[i],
        outputs[i],
    ) by {
        lemma_listed(parsed_worktrees(input)[i], current == Some(i as usize), present[i], outputs[i]);
    }
}

/// A branch is taken exactly when some worktree, whichever kind it is, has
/// it checked out; the worktree named is the first such one listed.
pub proof fn lemma_occupant_is_first_holder(ws: Seq<WorktreeModel>, name: Seq<char>)
    ensures
        occupant(ws, name) is None <==> forall|i: int| 0 <= i < ws.len() ==> (#[trigger] ws[i]).branch != Some(name),
        occupant(ws, name) matches Some(p) ==> exists|i: int|
            0 <= i < ws.len() && (#[trigger] ws[i]).branch == Some(name) && ws[i].path == p && forall|j: int|
                0 <= j < i ==> (#[trigger] ws[j]).branch != Some(name),
    decreases ws.len(),
{
    if ws.len() > 0 {
        let rest = ws.drop_first();
        lemma_occupant_is_first_holder(rest, name);
        if ws[0].branch == Some(name) {
            assert(forall|j: int| 0 <= j < 0 ==> (#[trigger] ws[j]).branch != Some(name));
        } else {
            assert forall|i: int| 0 <= i < rest.len() implies ws[i + 1] == (#[trigger] rest[i]) by {}
            if occupant(rest, name) is None {
                assert forall|i: int| 0 <= i < ws.len() implies (#[trigger] ws[i]).branch != Some(name) by {
                    if i > 0 {
                        assert(ws[i] == rest[i - 1]);
                    }
                }
            } else {
                let p = occupant(rest, name)->0;
                let i = choose|i: int|
                    0 <= i < rest.len() && (#[trigger] rest[i]).branch == Some(name) && rest[i].path == p
                        && forall|j: int| 0 <= j < i ==> (#[trigger] rest[j]).branch != Some(name);
                assert(ws[i + 1] == rest[i]);
                assert forall|j: int| 0 <= j < i + 1 implies (#[trigger] ws[j]).branch != Some(name) by {
                    if j > 0 {
                        assert(ws[j] == rest[j - 1]);
                    }
                }
                let k = 0int;
                assert(!(forall|i: int| 0 <= i < ws.len() ==> (#[trigger] ws[i]).branch != Some(name))) by {
                    assert(ws[i + 1].branch == Some(name));
                }
            }
        }
    }
}

proof fn lemma_split_joins(a: Seq<u8>, b: Seq<u8>, sep: u8)
    ensures
        split(a + seq![sep] + b, sep) == split(a, sep) + split(b, sep),
    decreases b.len(),
{
    let s = a + seq![sep] + b;
    if b.len() == 0 {
        assert(s.drop_last() =~= a);
        assert(s.last() == sep);
        assert(split(b, sep) =~= seq![Seq::<u8>::empty()]);
        assert(split(a, sep).push(Seq::empty()) =~= split(a, sep) + seq![Seq::<u8>::empty()]);
    } else {
        assert(s.drop_last() =~= a + seq![sep] + b.drop_last());
        assert(s.last() == b.last());
        lemma_split_joins(a, b.drop_last(), sep);
        lemma_split_nonempty(b.drop_last(), sep);
        let x = split(a, sep);
        let y = split(b.drop_last(), sep);
        if b.last() == sep {
            assert((x + y).push(Seq::empty()) =~= x + y.push(Seq::empty()));
        } else {
            assert((x + y).update((x + y).len() - 1, (x + y).last().push(b.last())) =~= x + y.update(
                y.len() - 1,
                y.last().push(b.last()),
            ));
        }
    }
}

proof fn lemma_split_whole(e: Seq<u8>, sep: u8)
    requires
        forall|i: int| 0 <= i < e.len() ==> e[i] != sep,
    ensures
        split(e, sep) == seq![e],
    decreases e.len(),
{
    if e.len() == 0 {
        assert(e =~= Seq::<u8>::empty());
    } else {
        lemma_split_whole(e.drop_last(), sep);
        let p = split(e.drop_last(), sep);
        assert(p.len() == 1 && p.last() == e.drop_last());
        assert(e.last() != sep);
        assert(e.drop_last().push(e.last()) =~= e);
        assert(e.last() == e[e.len() - 1]);
        assert(seq![e.drop_last()].update(0, e.drop_last().push(e.last())) =~= seq![e]);
    }
}

proof fn lemma_tally_shift(x: Seq<u8>, r: Seq<Seq<u8>>, i: int)
    requires
        0 <= i,
    ensures
        tally_from(seq![x] + r, i + 1) == tally_from(r, i),
    decreases r.len() - i,
{
    let es = seq![x] + r;
    if i < r.len() {
        assert(es[i + 1] == r[i]);
        lemma_tally_shift(x, r, i + 1);
        if i + 2 <= r.len() {
            lemma_tally_shift(x, r, i + 2);
        }
    }
}

/// What one status entry `e` in front of the rest of the output adds to the
/// counts of the rest.
proof fn lemma_entry_in_front(e: Seq<u8>, rest: Seq<u8>)
    requires
        forall|i: int| 0 <= i < e.len() ==> e[i] != 0,
    ensures
        tally_from(split(e + seq![0u8] + rest, 0), 0) == tally_from(seq![e] + split(rest, 0), 0),
{
    lemma_split_joins(e, rest, 0);
    lemma_split_whole(e, 0);
}

/// Counting `git status --porcelain=v2 -z` output entry by entry: an
/// ordinary entry (`1 `) adds one staged file unless its index column (byte
/// 2) is `.`, and one modified file unless its work-tree column (byte 3) is
/// `.`, whatever letter the column holds (`M`, `D`, `T`, ...); an untracked
/// entry (`? `) adds one untracked file, an unmerged one (`u `) one
/// conflicted file; a rename (`2 `) counts as an ordinary entry and its
/// source path, the field after it, counts for nothing; empty output counts
/// nothing.
pub proof fn lemma_status_entries(e: Seq<u8>, src: Seq<u8>, rest: Seq<u8>)
    requires
        forall|i: int| 0 <= i < e.len() ==> e[i] != 0,
        forall|i: int| 0 <= i < src.len() ==> src[i] != 0,
        e.len() >= 2 && e[1] == 32,
    ensures
        ({
            let t = tally_from(split(e + seq![0u8] + rest, 0), 0);
            let r = tally_from(split(rest, 0), 0);
            let staged: nat = if e.len() > 2 && e[2] == 46 { 0 } else { 1 };
            let modified: nat = if e.len() > 3 && e[3] == 46 { 0 } else { 1 };
            &&& e[0] == 49 ==> t == Tally {
                staged: r.staged + staged,
                modified: r.modified + modified,
                ..r
            }
            &&& e[0] == 63 ==> t == Tally { untracked: r.untracked + 1, ..r }
            &&& e[0] == 117 ==> t == Tally { conflicted: r.conflicted + 1, ..r }
            &&& e[0] == 50 ==> tally_from(split(e + seq![0u8] + src + seq![0u8] + rest, 0), 0) == Tally {
                staged: r.staged + staged,
                modified: r.modified + modified,
                ..r
            }
        }),
        tally_from(split(Seq::<u8>::empty(), 0), 0) == (Tally { conflicted: 0, staged: 0, modified: 0, untracked: 0 }),
{
    let rs = split(rest, 0);
    lemma_entry_in_front(e, rest);
    lemma_tally_shift(e, rs, 0);
    lemma_split_nonempty(rest, 0);
    if e[0] == 50 {
        let tail = src + seq![0u8] + rest;
        assert(e + seq![0u8] + src + seq![0u8] + rest =~= e + seq![0u8] + tail);
        lemma_entry_in_front(e, tail);
        lemma_entry_in_front(src, rest);
        let ts = seq![src] + rs;
        lemma_split_joins(src, rest, 0);
        lemma_split_whole(src, 0);
        assert(split(tail, 0) == ts);
        let es = seq![e] + ts;
        assert(es[0] == e);
        lemma_tally_shift(e, ts, 1);
        lemma_tally_shift(src, rs, 0);
        assert(tally_from(es, 2) == tally_from(rs, 0));
    }
    assert(split(Seq::<u8>::empty(), 0) =~= seq![Seq::<u8>::empty()]);
    assert(tally_from(seq![Seq::<u8>::empty()], 1) == Tally { conflicted: 0, staged: 0, modified: 0, untracked: 0 });
}

proof fn lemma_head_key(h: Seq<char>)
    ensures
        key_of("HEAD "@ + h) == "HEAD"@,
        value_of("HEAD "@ + h) == h,
{
    reveal_strlit("HEAD ");
    reveal_strlit("HEAD");
    let t = "HEAD "@ + h;
    lemma_space_index(t, 4);
    assert(t.take(4) =~= "HEAD"@);
    assert(t.skip(5) =~= h);
}

proof fn lemma_worktree_key(p: Seq<char>)
    ensures
        key_of("worktree "@ + p) == "worktree"@,
        value_of("worktree "@ + p) == p,
{
    reveal_strlit("worktree ");
    reveal_strlit("worktree");
    let t = "worktree "@ + p;
    lemma_space_index(t, 8);
    assert(t.take(8) =~= "worktree"@);
    assert(t.skip(9) =~= p);
}

/// A `HEAD <id>` field inside a record sets that record's commit id to
/// `<id>` and changes nothing else; one outside any record is ignored.
pub proof fn lemma_head_field_sets_head(fields: Seq<Seq<u8>>, f: Seq<u8>, h: Seq<char>)
    requires
        f.len() > 0,
        lossy_utf8(f) == "HEAD "@ + h,
    ensures
        scan(fields.push(f)).records == scan(fields).records,
        scan(fields.push(f)).current == match scan(fields).current {
            Some(item) => Some(WorktreeModel { head: h, ..item }),
            None => None::<WorktreeModel>,
        },
{
    reveal_strlit("worktree");
    reveal_strlit("HEAD");
    lemma_head_key(h);
    assert(fields.push(f).drop_last() =~= fields);
    assert("HEAD"@ != "worktree"@) by {
        assert("HEAD"@.len() != "worktree"@.len());
    }
}

/// A record read from `worktree <path>` and `HEAD <id>` fields: the one
/// worktree listed has that path and commit id, is Git's main worktree,
/// and nothing else is known of it.
pub proof fn lemma_path_and_head_record(f1: Seq<u8>, f2: Seq<u8>, p: Seq<char>, h: Seq<char>)
    requires
        f1.len() > 0,
        f2.len() > 0,
        lossy_utf8(f1) == "worktree "@ + p,
        lossy_utf8(f2) == "HEAD "@ + h,
    ensures
        close(scan(seq![f1, f2])) == seq![WorktreeModel { path: p, head: h, main: true, ..fresh_record(p) }],
{
    reveal_strlit("worktree");
    lemma_worktree_key(p);
    let one = seq![f1];
    assert(one.drop_last() =~= Seq::<Seq<u8>>::empty());
    assert(one.last() == f1);
    assert(scan(Seq::<Seq<u8>>::empty()) == Scan { records: Seq::empty(), current: None });
    assert(close(Scan { records: Seq::empty(), current: None }) == Seq::<WorktreeModel>::empty());
    assert(scan(one) == Scan { records: Seq::empty(), current: Some(fresh_record(p)) });
    assert(one.push(f2) =~= seq![f1, f2]);
    lemma_head_field_sets_head(one, f2, h);
    assert(Seq::<WorktreeModel>::empty().push(WorktreeModel { main: true, ..WorktreeModel { head: h, ..fresh_record(p) } }) =~= seq![WorktreeModel { path: p, head: h, main: true, ..fresh_record(p) }]);
}

/// Records that a scan has produced: only the first may be the main
/// worktree, and it is exactly when it is not bare; the record being read is
/// not marked main.
pub open spec fn main_marked(st: Scan) -> bool {
    &&& forall|i: int| 0 < i < st.records.len() ==> !(#[trigger] st.records[i]).main
    &&& st.records.len() > 0 ==> st.records[0].main == !st.records[0].bare
    &&& st.current matches Some(item) ==> !item.main
}

proof fn lemma_scan_main(fields: Seq<Seq<u8>>)
    ensures
        main_marked(scan(fields)),
    decreases fields.len(),
{
    if fields.len() > 0 {
        lemma_scan_main(fields.drop_last());
        let st = scan(fields.drop_last());
        let f = fields.last();
        if f.len() > 0 {
            let t = lossy_utf8(f);
            if key_of(t) != "worktree"@ {
                if let Some(item) = st.current {
                    let v = value_of(t);
                    assert(!apply_attribute(item, key_of(t), v).main);
                }
            }
        }
    }
}

/// In parsed `git worktree list` output only the first record can be Git's
/// main worktree, and it is unless the repository is bare.
pub proof fn lemma_only_first_is_main(input: Seq<u8>)
    ensures
        forall|i: int| 0 < i < parsed_worktrees(input).len() ==> !(#[trigger] parsed_worktrees(input)[i]).main,
        parsed_worktrees(input).len() > 0 ==> parsed_worktrees(input)[0].main == !parsed_worktrees(input)[0].bare,
{
    lemma_scan_main(split(input, 0));
}

/// How many fields open a record (`worktree <path>`).
pub open spec fn record_starts(fields: Seq<Seq<u8>>) -> nat
    decreases fields.len(),
{
    if fields.len() == 0 {
        0
    } else {
        let f = fields.last();
        record_starts(fields.drop_last()) + (if f.len() > 0 && key_of(lossy_utf8(f)) == "worktree"@ {
            1nat
        } else {
            0nat
        })
    }
}

proof fn lemma_scan_count(fields: Seq<Seq<u8>>)
    ensures
        scan(fields).records.len() + (if scan(fields).current is Some { 1nat } else { 0nat })
            == record_starts(fields),
    decreases fields.len(),
{
    if fields.len() > 0 {
        lemma_scan_count(fields.drop_last());
    }
}

/// Every `worktree <path>` field yields exactly one record, and nothing else
/// does.
pub proof fn lemma_one_record_per_worktree_line(input: Seq<u8>)
    ensures
        parsed_worktrees(input).len() == record_starts(split(input, 0)),
{
    lemma_scan_count(split(input, 0));
}

/// The worktree picked as current contains the current directory, and no
/// other worktree containing it has a longer path.
pub proof fn lemma_current_is_deepest(ws: Seq<WorktreeModel>, inside: Seq<bool>, n: int)
    requires
        0 <= n <= inside.len(),
    ensures
        deepest(ws, inside, n) >= 0 ==> inside[deepest(ws, inside, n)],
        forall|j: int| 0 <= j < n && inside[j] ==> deepest(ws, inside, n) >= 0 && path_bytes(
            ws[j],
        ) <= path_bytes(ws[deepest(ws, inside, n)]),
    decreases n,
{
    lemma_deepest(ws, inside, n);
    if n > 0 {
        lemma_current_is_deepest(ws, inside, n - 1);
        lemma_deepest(ws, inside, n - 1);
    }
}

} // verus!
