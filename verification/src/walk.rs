//! The walk through a directory hierarchy: which entries are shown, in which
//! order and shape, and what is counted.

use vstd::prelude::*;
use vstd::string::*;
use crate::args::Config;
use crate::args::ConfigView;
use crate::line::Line;
use crate::line::LineView;
use crate::order::display_order;
use crate::order::ints;
use crate::order::is_display_order;
use crate::order::lemma_display_order;
use crate::order::visible_order;
use crate::tree::Dir;
use crate::tree::Entry;
use crate::tree::IoErrorKind;
use crate::tree::Node;

verus! {

/// Running totals of what has been shown.
#[derive(Clone, Copy, Debug, PartialEq, Eq, Structural)]
pub struct Counts {
    /// The entries shown that are no directories.
    pub files: u32,
    /// The directories shown.
    pub dirs: u32,
    /// The sizes of the files shown, added up, where sizes are shown.
    pub bytes: u64,
}

/// What a walk yields: the lines in the order in which they are shown, what
/// is to be added to the totals, and the failure that ended it, if one did.
pub struct Walked {
    pub lines: Seq<LineView>,
    pub files: nat,
    pub dirs: nat,
    pub bytes: nat,
    pub error: Option<IoErrorKind>,
}

/// A walk that shows nothing and does not fail.
pub open spec fn nothing() -> Walked {
    Walked { lines: Seq::empty(), files: 0, dirs: 0, bytes: 0, error: None }
}

/// A walk that fails before it shows anything.
pub open spec fn failure(kind: IoErrorKind) -> Walked {
    Walked { lines: Seq::empty(), files: 0, dirs: 0, bytes: 0, error: Some(kind) }
}

/// One walk after another: a failure of the first ends both.
pub open spec fn then(first: Walked, rest: Walked) -> Walked {
    if first.error is Some {
        first
    } else {
        Walked {
            lines: first.lines + rest.lines,
            files: first.files + rest.files,
            dirs: first.dirs + rest.dirs,
            bytes: first.bytes + rest.bytes,
            error: rest.error,
        }
    }
}

/// What stands in front of the names of a directory's entries: nothing at
/// level 0, else the directory's path and a backslash.
pub open spec fn label_base(config: ConfigView, path: Seq<char>) -> Seq<char> {
    if config.display_level > 0 {
        path + "\\"@
    } else {
        Seq::empty()
    }
}

/// The line of an entry.
pub open spec fn entry_line(
    base: Seq<char>,
    entry: Entry,
    last: bool,
    columns: Seq<bool>,
    size: Option<u64>,
) -> LineView {
    LineView { columns, last, base, name: entry.name@, is_dir: entry.is_dir(), size }
}

/// The walk of one shown entry.
///
/// A file is one line and counts as one file. Where sizes are shown its size
/// is read first: the size is shown and added, or the failure ends the walk
/// before the file is shown or counted. A directory is one line, counts as
/// one directory and is followed by the walk of what it holds, one column
/// further in; the column holds a bar unless the directory is the last entry.
pub open spec fn walk_entry(
    config: ConfigView,
    base: Seq<char>,
    entry: Entry,
    last: bool,
    columns: Seq<bool>,
) -> Walked
    decreases entry, 0nat, 0nat,
{
    match entry.node {
        Node::File { size } => if config.display_bytes {
            match size {
                Ok(bytes) => Walked {
                    lines: seq![entry_line(base, entry, last, columns, Some(bytes))],
                    files: 1,
                    dirs: 0,
                    bytes: bytes as nat,
                    error: None,
                },
                Err(kind) => failure(kind),
            }
        } else {
            Walked {
                lines: seq![entry_line(base, entry, last, columns, None)],
                files: 1,
                dirs: 0,
                bytes: 0,
                error: None,
            }
        },
        Node::Directory(dir) => then(
            Walked {
                lines: seq![entry_line(base, entry, last, columns, None)],
                files: 0,
                dirs: 1,
                bytes: 0,
                error: None,
            },
            walk_dir(config, dir, columns.push(!last)),
        ),
    }
}

/// The walk of a directory: a directory that cannot be listed fails; of one
/// that can, the entries that are shown are walked in their display order.
pub open spec fn walk_dir(config: ConfigView, dir: Dir, columns: Seq<bool>) -> Walked
    decreases dir, 1nat, 0nat,
{
    match dir.listing {
        Ok(entries) => walk_from(config, dir, display_order(config, entries@), columns, 0),
        Err(kind) => failure(kind),
    }
}

/// The walk of the entries of `dir` at the positions `order[k]`, `order[k + 1]`
/// and so on; the last of them is the last entry of its directory.
pub open spec fn walk_from(
    config: ConfigView,
    dir: Dir,
    order: Seq<int>,
    columns: Seq<bool>,
    k: int,
) -> Walked
    decreases dir, 0nat, order.len() - k,
{
    match dir.listing {
        Ok(entries) => if 0 <= k < order.len() && 0 <= order[k] < entries@.len() {
            then(
                walk_entry(
                    config,
                    label_base(config, dir.path@),
                    entries@[order[k]],
                    k == order.len() - 1,
                    columns,
                ),
                walk_from(config, dir, order, columns, k + 1),
            )
        } else {
            nothing()
        },
        Err(_) => nothing(),
    }
}

/// The totals can take what a walk adds to them.
pub open spec fn fits(counts: Counts, walked: Walked) -> bool {
    &&& counts.files + walked.files <= u32::MAX
    &&& counts.dirs + walked.dirs <= u32::MAX
    &&& counts.bytes + walked.bytes <= u64::MAX
}

proof fn lemma_then_assoc(a: Walked, b: Walked, c: Walked)
    ensures
        then(then(a, b), c) == then(a, then(b, c)),
{
    assert((a.lines + b.lines) + c.lines =~= a.lines + (b.lines + c.lines));
}

proof fn lemma_then_nothing(a: Walked)
    ensures
        then(a, nothing()) == a,
        then(nothing(), a) == a,
{
    assert(a.lines + Seq::<LineView>::empty() =~= a.lines);
    assert(Seq::<LineView>::empty() + a.lines =~= a.lines);
}

fn copy_columns(columns: &Vec<bool>) -> (r: Vec<bool>)
    ensures
        r@ == columns@,
{
    let mut r: Vec<bool> = Vec::new();
    let mut i: usize = 0;
    while i < columns.len()
        invariant
            i <= columns.len(),
            r@ == columns@.take(i as int),
        decreases columns.len() - i,
    {
        r.push(columns[i]);
        assert(columns@.take(i + 1) == columns@.take(i as int).push(columns@[i as int]));
        i += 1;
    }
    assert(columns@.take(i as int) == columns@);
    r
}

/// `r` holds what `walked` adds to the totals and whether it fails, or is
/// `None` where one of its totals is beyond what a counter can hold.
pub open spec fn measured(walked: Walked, r: Option<(Counts, bool)>) -> bool {
    match r {
        Some((sum, failed)) => {
            &&& sum.files == walked.files
            &&& sum.dirs == walked.dirs
            &&& sum.bytes == walked.bytes
            &&& failed == walked.error is Some
        },
        None => !fits(Counts { files: 0, dirs: 0, bytes: 0 }, walked),
    }
}

/// Adds up two sets of totals, unless a counter cannot hold a sum.
fn sum_counts(a: Counts, b: Counts) -> (r: Option<Counts>)
    ensures
        match r {
            Some(sum) => {
                &&& sum.files == a.files + b.files
                &&& sum.dirs == a.dirs + b.dirs
                &&& sum.bytes == a.bytes + b.bytes
            },
            None => {
                ||| a.files + b.files > u32::MAX
                ||| a.dirs + b.dirs > u32::MAX
                ||| a.bytes + b.bytes > u64::MAX
            },
        },
{
    match (a.files.checked_add(b.files), a.dirs.checked_add(b.dirs), a.bytes.checked_add(b.bytes)) {
        (Some(files), Some(dirs), Some(bytes)) => Some(Counts { files, dirs, bytes }),
        _ => None,
    }
}

/// Measures the walk of one entry without showing it.
fn measure_entry(
    config: &Config,
    entry: &Entry,
    Ghost(base): Ghost<Seq<char>>,
    Ghost(last): Ghost<bool>,
    Ghost(columns): Ghost<Seq<bool>>,
) -> (r: Option<(Counts, bool)>)
    ensures
        measured(walk_entry(config@, base, *entry, last, columns), r),
    decreases entry, 0nat,
{
    match &entry.node {
        Node::File { size } => {
            if config.display_bytes {
                match size {
                    Ok(bytes) => Some((Counts { files: 1, dirs: 0, bytes: *bytes }, false)),
                    Err(_) => Some((Counts { files: 0, dirs: 0, bytes: 0 }, true)),
                }
            } else {
                Some((Counts { files: 1, dirs: 0, bytes: 0 }, false))
            }
        },
        Node::Directory(below) => {
            match measure_dir(config, below, Ghost(columns.push(!last))) {
                Some((inner, failed)) => {
                    match sum_counts(Counts { files: 0, dirs: 1, bytes: 0 }, inner) {
                        Some(sum) => Some((sum, failed)),
                        None => None,
                    }
                },
                None => None,
            }
        },
    }
}

/// Measures the walk of a directory without showing it.
fn measure_dir(config: &Config, dir: &Dir, Ghost(columns): Ghost<Seq<bool>>) -> (r: Option<
    (Counts, bool),
>)
    ensures
        measured(walk_dir(config@, *dir, columns), r),
    decreases dir, 1nat,
{
    let ghost total = walk_dir(config@, *dir, columns);
    let entries = match &dir.listing {
        Ok(entries) => entries,
        Err(_) => {
            return Some((Counts { files: 0, dirs: 0, bytes: 0 }, true));
        },
    };
    let order = visible_order(config, entries);
    let ghost ord = ints(order@);
    let ghost base = label_base(config@, dir.path@);
    let ghost mut done = nothing();
    let mut sum = Counts { files: 0, dirs: 0, bytes: 0 };
    proof {
        lemma_display_order(config@, entries@);
        lemma_then_nothing(total);
    }
    let mut k: usize = 0;
    while k < order.len()
        invariant
            k <= order.len(),
            dir.listing == Ok::<Vec<Entry>, IoErrorKind>(*entries),
            ord == ints(order@),
            is_display_order(config@, entries@, ord),
            base == label_base(config@, dir.path@),
            total == walk_dir(config@, *dir, columns),
            then(done, walk_from(config@, *dir, ord, columns, k as int)) == total,
            measured(done, Some((sum, false))),
        decreases order.len() - k,
    {
        let index = order[k];
        assert(ord[k as int] == index);
        let entry = &entries[index];
        let ghost last = k + 1 == order.len();
        let ghost step = walk_entry(config@, base, *entry, last, columns);
        let ghost rest = walk_from(config@, *dir, ord, columns, k + 1);
        proof {
            assert(walk_from(config@, *dir, ord, columns, k as int) == then(step, rest));
            lemma_then_assoc(done, step, rest);
        }
        match measure_entry(config, entry, Ghost(base), Ghost(last), Ghost(columns)) {
            Some((part, failed)) => {
                match sum_counts(sum, part) {
                    Some(next) => {
                        sum = next;
                    },
                    None => {
                        return None;
                    },
                }
                if failed {
                    return Some((sum, true));
                }
            },
            None => {
                return None;
            },
        }
        proof {
            done = then(done, step);
        }
        k += 1;
    }
    proof {
        lemma_then_nothing(done);
    }
    Some((sum, false))
}

/// Tells whether `counts` can take what the walk of `dir` adds to it, which
/// is what [`walk`] asks of its caller.
pub fn can_walk(config: &Config, counts: &Counts, dir: &Dir, prefix: &Vec<bool>) -> (r: bool)
    ensures
        r == fits(*counts, walk_dir(config@, *dir, prefix@)),
{
    match measure_dir(config, dir, Ghost(prefix@)) {
        Some((part, _)) => sum_counts(*counts, part).is_some(),
        None => false,
    }
}

/// `after` and `now` are `before` and `shown` with what `walked` adds, and
/// `r` tells how it ended.
pub open spec fn applied(
    before: Counts,
    shown: Seq<LineView>,
    walked: Walked,
    after: Counts,
    now: Seq<LineView>,
    r: Result<(), IoErrorKind>,
) -> bool {
    &&& after.files == before.files + walked.files
    &&& after.dirs == before.dirs + walked.dirs
    &&& after.bytes == before.bytes + walked.bytes
    &&& now == shown + walked.lines
    &&& r == match walked.error {
        Some(kind) => Err::<(), IoErrorKind>(kind),
        None => Ok(()),
    }
}

/// Shows one entry and, if it is a directory, what it holds.
fn visit(
    config: &Config,
    counts: &mut Counts,
    base: &String,
    entry: &Entry,
    last: bool,
    prefix: &Vec<bool>,
    out: &mut Vec<Line>,
) -> (r: Result<(), IoErrorKind>)
    requires
        fits(*old(counts), walk_entry(config@, base@, *entry, last, prefix@)),
    ensures
        applied(
            *old(counts),
            old(out).deep_view(),
            walk_entry(config@, base@, *entry, last, prefix@),
            *final(counts),
            final(out).deep_view(),
            r,
        ),
    decreases entry, 0nat,
{
    let ghost shown = out.deep_view();
    let ghost step = walk_entry(config@, base@, *entry, last, prefix@);
    match &entry.node {
        Node::File { size } => {
            let shown_size = if config.display_bytes {
                match size {
                    Ok(bytes) => Some(*bytes),
                    Err(kind) => {
                        assert(shown + step.lines =~= shown);
                        return Err(*kind);
                    },
                }
            } else {
                None
            };
            counts.files = counts.files + 1;
            if let Some(bytes) = shown_size {
                counts.bytes = counts.bytes + bytes;
            }
            let line = Line {
                columns: copy_columns(prefix),
                last,
                base: base.clone(),
                name: entry.name.clone(),
                is_dir: false,
                size: shown_size,
            };
            out.push(line);
            proof {
                assert(line@ == entry_line(base@, *entry, last, prefix@, shown_size));
                assert(out.deep_view() =~= shown.push(line@));
                assert(shown.push(line@) =~= shown + step.lines);
            }
            Ok(())
        },
        Node::Directory(below) => {
            counts.dirs = counts.dirs + 1;
            let line = Line {
                columns: copy_columns(prefix),
                last,
                base: base.clone(),
                name: entry.name.clone(),
                is_dir: true,
                size: None,
            };
            out.push(line);
            let mut columns = copy_columns(prefix);
            columns.push(!last);
            let ghost inner = walk_dir(config@, *below, columns@);
            let ghost head = seq![entry_line(base@, *entry, last, prefix@, None)];
            proof {
                assert(line@ == entry_line(base@, *entry, last, prefix@, None));
                assert(out.deep_view() =~= shown.push(line@));
                assert(columns@ == prefix@.push(!last));
                assert(step == then(
                    Walked { lines: head, files: 0, dirs: 1, bytes: 0, error: None },
                    inner,
                ));
            }
            let r = walk(config, counts, below, &columns, out);
            proof {
                assert(out.deep_view() =~= shown + (head + inner.lines));
            }
            r
        },
    }
}

/// Walks `dir`: appends to `out` one line for each entry that is shown, a
/// directory's line before those of what it holds, and adds what is shown to
/// `counts`. `prefix` holds the columns of indentation in front of the
/// directory's own entries, none at the root.
///
/// The walk ends at the first directory that cannot be listed, or, where
/// sizes are shown, at the first file whose size cannot be read: what was
/// shown before stays shown and counted, and the failure is returned.
///
/// The caller sees to it that `counts` can take what the walk adds to it;
/// [`can_walk`] tells, and [`walk_checked`] asks before it walks.
pub fn walk(
    config: &Config,
    counts: &mut Counts,
    dir: &Dir,
    prefix: &Vec<bool>,
    out: &mut Vec<Line>,
) -> (r: Result<(), IoErrorKind>)
    requires
        fits(*old(counts), walk_dir(config@, *dir, prefix@)),
    ensures
        applied(
            *old(counts),
            old(out).deep_view(),
            walk_dir(config@, *dir, prefix@),
            *final(counts),
            final(out).deep_view(),
            r,
        ),
    decreases dir, 1nat,
{
    let ghost total = walk_dir(config@, *dir, prefix@);
    let ghost counts0 = *counts;
    let ghost out0 = out.deep_view();
    let entries = match &dir.listing {
        Ok(entries) => entries,
        Err(kind) => {
            assert(out0 + total.lines =~= out0);
            return Err(*kind);
        },
    };
    let order = visible_order(config, entries);
    let mut base = String::new();
    if config.display_level > 0 {
        base = dir.path.clone();
        base.append("\\");
    }
    let ghost ord = ints(order@);
    let ghost mut done = nothing();
    proof {
        lemma_display_order(config@, entries@);
        lemma_then_nothing(total);
        assert(out0 + done.lines =~= out0);
    }
    let mut k: usize = 0;
    while k < order.len()
        invariant
            k <= order.len(),
            dir.listing == Ok::<Vec<Entry>, IoErrorKind>(*entries),
            ord == ints(order@),
            is_display_order(config@, entries@, ord),
            base@ == label_base(config@, dir.path@),
            total == walk_dir(config@, *dir, prefix@),
            counts0 == *old(counts),
            out0 == old(out).deep_view(),
            fits(counts0, total),
            done.error is None,
            then(done, walk_from(config@, *dir, ord, prefix@, k as int)) == total,
            applied(counts0, out0, done, *counts, out.deep_view(), Ok(())),
        decreases order.len() - k,
    {
        let index = order[k];
        assert(ord[k as int] == index);
        let entry = &entries[index];
        let last = k + 1 == order.len();
        let ghost step = walk_entry(config@, base@, *entry, last, prefix@);
        let ghost rest = walk_from(config@, *dir, ord, prefix@, k + 1);
        proof {
            assert(walk_from(config@, *dir, ord, prefix@, k as int) == then(step, rest));
            lemma_then_assoc(done, step, rest);
            assert(out0 + (done.lines + step.lines) =~= (out0 + done.lines) + step.lines);
        }
        let r = visit(config, counts, &base, entry, last, prefix, out);
        if let Err(kind) = r {
            return Err(kind);
        }
        proof {
            done = then(done, step);
        }
        k += 1;
    }
    proof {
        lemma_then_nothing(done);
    }
    Ok(())
}

/// Walks `dir` as [`walk`] does if `counts` can take what the walk adds to
/// it, and else changes nothing and returns `None`.
pub fn walk_checked(
    config: &Config,
    counts: &mut Counts,
    dir: &Dir,
    prefix: &Vec<bool>,
    out: &mut Vec<Line>,
) -> (r: Option<Result<(), IoErrorKind>>)
    ensures
        match r {
            Some(result) => {
                &&& fits(*old(counts), walk_dir(config@, *dir, prefix@))
                &&& applied(
                    *old(counts),
                    old(out).deep_view(),
                    walk_dir(config@, *dir, prefix@),
                    *final(counts),
                    final(out).deep_view(),
                    result,
                )
            },
            None => {
                &&& !fits(*old(counts), walk_dir(config@, *dir, prefix@))
                &&& *final(counts) == *old(counts)
                &&& final(out).deep_view() == old(out).deep_view()
            },
        },
{
    if can_walk(config, counts, dir, prefix) {
        Some(walk(config, counts, dir, prefix, out))
    } else {
        None
    }
}

} // verus!
