//! What holds of every walk.

use vstd::prelude::*;
use vstd::string::*;
use crate::args::ConfigView;
use crate::filter::shown;
use crate::line::LineView;
use crate::order::display_order;
use crate::order::entry_before;
use crate::order::is_display_order;
use crate::order::lemma_display_order;
use crate::render::is_rendering;
use crate::render::line_text;
use crate::render::plain_text;
use crate::render::bar;
use crate::render::glyph;
use crate::render::indent;
use crate::render::decimal_size;
use crate::text::lemma_name_less_strict_total;
use crate::text::name_less;
use crate::tree::Dir;
use crate::tree::Entry;
use crate::tree::IoErrorKind;
use crate::tree::Node;
use crate::walk::applied;
use crate::walk::entry_line;
use crate::walk::label_base;
use crate::walk::then;
use crate::walk::walk_dir;
use crate::walk::walk_entry;
use crate::walk::walk_from;
use crate::walk::Counts;
use crate::walk::Walked;

verus! {

/// The size that the line of an entry shows: that of a file whose size
/// could be read, where sizes are shown.
pub open spec fn shown_size(config: ConfigView, entry: Entry) -> Option<u64> {
    match entry.node {
        Node::File { size: Ok(bytes) } => if config.display_bytes {
            Some(bytes)
        } else {
            None
        },
        _ => None,
    }
}

/// The lines of the entries of `dir` itself, as a walk that does not fail
/// shows them: one for each shown entry, in display order.
pub open spec fn own_lines(config: ConfigView, dir: Dir, columns: Seq<bool>) -> Seq<LineView> {
    match dir.listing {
        Ok(entries) => {
            let order = display_order(config, entries@);
            Seq::new(
                order.len(),
                |k: int|
                    entry_line(
                        label_base(config, dir.path@),
                        entries@[order[k]],
                        k == order.len() - 1,
                        columns,
                        shown_size(config, entries@[order[k]]),
                    ),
            )
        },
        Err(_) => Seq::empty(),
    }
}

/// Of `lines`, those with `depth` columns, in their order.
pub open spec fn at_depth(lines: Seq<LineView>, depth: nat) -> Seq<LineView>
    decreases lines.len(),
{
    if lines.len() == 0 {
        Seq::empty()
    } else if lines.last().columns.len() == depth {
        at_depth(lines.drop_last(), depth).push(lines.last())
    } else {
        at_depth(lines.drop_last(), depth)
    }
}

/// The sizes that `lines` show, added up.
pub open spec fn sizes_sum(lines: Seq<LineView>) -> nat
    decreases lines.len(),
{
    if lines.len() == 0 {
        0
    } else {
        sizes_sum(lines.drop_last()) + match lines.last().size {
            Some(bytes) => bytes as nat,
            None => 0,
        }
    }
}

/// The lines that show a directory.
pub open spec fn dir_lines(lines: Seq<LineView>) -> nat
    decreases lines.len(),
{
    if lines.len() == 0 {
        0
    } else {
        dir_lines(lines.drop_last()) + if lines.last().is_dir {
            1nat
        } else {
            0nat
        }
    }
}

proof fn lemma_at_depth_add(a: Seq<LineView>, b: Seq<LineView>, depth: nat)
    ensures
        at_depth(a + b, depth) == at_depth(a, depth) + at_depth(b, depth),
    decreases b.len(),
{
    if b.len() == 0 {
        assert(a + b == a);
        assert(at_depth(a, depth) + at_depth(b, depth) == at_depth(a, depth));
    } else {
        assert((a + b).drop_last() == a + b.drop_last());
        assert((a + b).last() == b.last());
        lemma_at_depth_add(a, b.drop_last(), depth);
        let x = at_depth(a, depth);
        let y = at_depth(b.drop_last(), depth);
        assert((x + y).push(b.last()) == x + y.push(b.last()));
    }
}

proof fn lemma_at_depth_none(lines: Seq<LineView>, depth: nat)
    requires
        forall|i: int| 0 <= i < lines.len() ==> (#[trigger] lines[i]).columns.len() > depth,
    ensures
        at_depth(lines, depth) == Seq::<LineView>::empty(),
    decreases lines.len(),
{
    if lines.len() > 0 {
        let front = lines.drop_last();
        assert forall|i: int| 0 <= i < front.len() implies (#[trigger] front[i]).columns.len()
            > depth by {
            assert(front[i] == lines[i]);
        }
        lemma_at_depth_none(front, depth);
        assert(lines.last() == lines[lines.len() - 1]);
    }
}

proof fn lemma_sums_add(a: Seq<LineView>, b: Seq<LineView>)
    ensures
        sizes_sum(a + b) == sizes_sum(a) + sizes_sum(b),
        dir_lines(a + b) == dir_lines(a) + dir_lines(b),
    decreases b.len(),
{
    if b.len() == 0 {
        assert(a + b == a);
    } else {
        assert((a + b).drop_last() == a + b.drop_last());
        assert((a + b).last() == b.last());
        lemma_sums_add(a, b.drop_last());
    }
}

proof fn lemma_sums_one(line: LineView)
    ensures
        sizes_sum(seq![line]) == match line.size {
            Some(bytes) => bytes as nat,
            None => 0,
        },
        dir_lines(seq![line]) == if line.is_dir {
            1nat
        } else {
            0nat
        },
        at_depth(seq![line], line.columns.len()) == seq![line],
{
    let s = seq![line];
    assert(s.drop_last() == Seq::<LineView>::empty());
    assert(s.last() == line);
    assert(sizes_sum(s.drop_last()) == 0);
    assert(dir_lines(s.drop_last()) == 0);
    assert(at_depth(s.drop_last(), line.columns.len()) == Seq::<LineView>::empty());
    assert(Seq::<LineView>::empty().push(line) == s);
}

/// `whole` starts with the columns `front`.
pub open spec fn extends(whole: Seq<bool>, front: Seq<bool>) -> bool {
    front.len() <= whole.len() && whole.subrange(0, front.len() as int) == front
}

/// What a walk counts and what it shows agree, whether it fails or not, and
/// each of its lines starts with the columns that the walk starts with.
pub open spec fn tallied(config: ConfigView, walked: Walked, columns: Seq<bool>) -> bool {
    &&& walked.files + walked.dirs == walked.lines.len()
    &&& walked.dirs == dir_lines(walked.lines)
    &&& walked.bytes == sizes_sum(walked.lines)
    &&& !config.display_bytes ==> walked.bytes == 0
    &&& forall|i: int|
        0 <= i < walked.lines.len() ==> extends((#[trigger] walked.lines[i]).columns, columns)
}

proof fn lemma_then_tallied(config: ConfigView, first: Walked, rest: Walked, columns: Seq<bool>)
    requires
        tallied(config, first, columns),
        tallied(config, rest, columns),
    ensures
        tallied(config, then(first, rest), columns),
{
    lemma_sums_add(first.lines, rest.lines);
}

proof fn lemma_entry_tallied(
    config: ConfigView,
    base: Seq<char>,
    entry: Entry,
    last: bool,
    columns: Seq<bool>,
)
    ensures
        tallied(config, walk_entry(config, base, entry, last, columns), columns),
        walk_entry(config, base, entry, last, columns).error is None ==> at_depth(
            walk_entry(config, base, entry, last, columns).lines,
            columns.len(),
        ) == seq![entry_line(base, entry, last, columns, shown_size(config, entry))],
    decreases entry, 0nat, 0nat,
{
    let step = walk_entry(config, base, entry, last, columns);
    match entry.node {
        Node::File { size } => {
            if step.error is None {
                lemma_sums_one(step.lines[0]);
                assert(step.lines == seq![step.lines[0]]);
                assert(step.lines[0].columns.subrange(0, columns.len() as int) == columns);
            }
        },
        Node::Directory(dir) => {
            let line = entry_line(base, entry, last, columns, None);
            let head = Walked { lines: seq![line], files: 0, dirs: 1, bytes: 0, error: None };
            let inner = walk_dir(config, dir, columns.push(!last));
            let further = columns.push(!last);
            lemma_dir_tallied(config, dir, further);
            lemma_sums_one(line);
            assert(line.columns.subrange(0, columns.len() as int) == columns);
            assert(tallied(config, head, columns));
            assert forall|i: int| 0 <= i < inner.lines.len() implies extends(
                (#[trigger] inner.lines[i]).columns,
                columns,
            ) && inner.lines[i].columns.len() > columns.len() by {
                let own = inner.lines[i].columns;
                assert(extends(own, further));
                assert(own.subrange(0, columns.len() as int) == own.subrange(
                    0,
                    further.len() as int,
                ).subrange(0, columns.len() as int));
                assert(further.subrange(0, columns.len() as int) == columns);
            }
            assert(tallied(config, inner, columns));
            lemma_then_tallied(config, head, inner, columns);
            if step.error is None {
                lemma_at_depth_add(head.lines, inner.lines, columns.len());
                lemma_at_depth_none(inner.lines, columns.len());
                assert(seq![line] + Seq::<LineView>::empty() == seq![line]);
            }
        },
    }
}

proof fn lemma_dir_tallied(config: ConfigView, dir: Dir, columns: Seq<bool>)
    ensures
        tallied(config, walk_dir(config, dir, columns), columns),
        walk_dir(config, dir, columns).error is None ==> at_depth(
            walk_dir(config, dir, columns).lines,
            columns.len(),
        ) == own_lines(config, dir, columns),
    decreases dir, 1nat, 0nat,
{
    match dir.listing {
        Ok(entries) => {
            let order = display_order(config, entries@);
            lemma_display_order(config, entries@);
            lemma_from_tallied(config, dir, order, columns, 0);
            assert(own_lines(config, dir, columns).subrange(0, order.len() as int) == own_lines(
                config,
                dir,
                columns,
            ));
        },
        Err(_) => {},
    }
}

proof fn lemma_from_tallied(
    config: ConfigView,
    dir: Dir,
    order: Seq<int>,
    columns: Seq<bool>,
    k: int,
)
    requires
        dir.listing is Ok,
        order == display_order(config, dir.listing->Ok_0@),
        forall|j: int| 0 <= j < order.len() ==> 0 <= #[trigger] order[j] < dir.listing->Ok_0@.len(),
        0 <= k <= order.len(),
    ensures
        tallied(config, walk_from(config, dir, order, columns, k), columns),
        walk_from(config, dir, order, columns, k).error is None ==> at_depth(
            walk_from(config, dir, order, columns, k).lines,
            columns.len(),
        ) == own_lines(config, dir, columns).subrange(k, order.len() as int),
    decreases dir, 0nat, order.len() - k,
{
    let entries = dir.listing->Ok_0@;
    let own = own_lines(config, dir, columns);
    if k < order.len() {
        let base = label_base(config, dir.path@);
        let entry = entries[order[k]];
        let last = k == order.len() - 1;
        let step = walk_entry(config, base, entry, last, columns);
        let rest = walk_from(config, dir, order, columns, k + 1);
        lemma_entry_tallied(config, base, entry, last, columns);
        lemma_from_tallied(config, dir, order, columns, k + 1);
        lemma_then_tallied(config, step, rest, columns);
        if then(step, rest).error is None {
            lemma_at_depth_add(step.lines, rest.lines, columns.len());
            assert(own.subrange(k, order.len() as int) == seq![own[k]] + own.subrange(
                k + 1,
                order.len() as int,
            ));
        }
    } else {
        assert(own.subrange(k, order.len() as int) == Seq::<LineView>::empty());
    }
}

/// Every line of a walk is one entry counted: the files and the directories
/// counted are together as many as the lines shown, below the directory
/// down to the last level, and the directories counted are as many as the
/// lines that show one. This holds of a walk that fails too.
pub proof fn lemma_counts_match_lines(config: ConfigView, dir: Dir, columns: Seq<bool>)
    ensures
        walk_dir(config, dir, columns).files + walk_dir(config, dir, columns).dirs == walk_dir(
            config,
            dir,
            columns,
        ).lines.len(),
        walk_dir(config, dir, columns).dirs == dir_lines(walk_dir(config, dir, columns).lines),
{
    lemma_dir_tallied(config, dir, columns);
}

/// Every line of a walk starts with the columns that the walk starts with:
/// what stands in front of a directory's entries stands in front of all
/// that is below them, and entries side by side share it.
pub proof fn lemma_lines_keep_columns(config: ConfigView, dir: Dir, columns: Seq<bool>)
    ensures
        forall|i: int|
            0 <= i < walk_dir(config, dir, columns).lines.len() ==> extends(
                (#[trigger] walk_dir(config, dir, columns).lines[i]).columns,
                columns,
            ),
{
    lemma_dir_tallied(config, dir, columns);
}

/// The bytes counted are the sizes shown, added up: the sizes of the files
/// that are shown where sizes are shown, and nothing where they are not.
pub proof fn lemma_bytes_match_sizes(config: ConfigView, dir: Dir, columns: Seq<bool>)
    ensures
        walk_dir(config, dir, columns).bytes == sizes_sum(walk_dir(config, dir, columns).lines),
        !config.display_bytes ==> walk_dir(config, dir, columns).bytes == 0,
{
    lemma_dir_tallied(config, dir, columns);
}

/// Of the lines of a walk that does not fail, those at the directory's own
/// depth are the lines of its own entries: one for each entry that is
/// shown, in display order, each with the file's own size where sizes are
/// shown.
pub proof fn lemma_own_lines_shown(config: ConfigView, dir: Dir, columns: Seq<bool>)
    requires
        walk_dir(config, dir, columns).error is None,
    ensures
        at_depth(walk_dir(config, dir, columns).lines, columns.len()) == own_lines(
            config,
            dir,
            columns,
        ),
{
    lemma_dir_tallied(config, dir, columns);
}

/// The names on a directory's own lines are the names of its entries, less
/// those that are hidden where hidden entries are not shown, less those
/// that are ignored, less those that are no directories where only
/// directories are shown.
pub proof fn lemma_names_shown(config: ConfigView, dir: Dir, columns: Seq<bool>, name: Seq<char>)
    requires
        dir.listing is Ok,
    ensures
        (exists|k: int|
            0 <= k < own_lines(config, dir, columns).len() && (#[trigger] own_lines(
                config,
                dir,
                columns,
            )[k]).name == name) <==> (exists|i: int|
            0 <= i < dir.listing->Ok_0@.len() && (#[trigger] dir.listing->Ok_0@[i]).name@ == name
                && shown(config, dir.listing->Ok_0@[i])),
{
    let entries = dir.listing->Ok_0@;
    let order = display_order(config, entries);
    let own = own_lines(config, dir, columns);
    lemma_display_order(config, entries);
    if exists|k: int| 0 <= k < own.len() && (#[trigger] own[k]).name == name {
        let k = choose|k: int| 0 <= k < own.len() && (#[trigger] own[k]).name == name;
        let i = order[k];
        assert(entries[i].name@ == name && shown(config, entries[i]));
    }
    if exists|i: int|
        0 <= i < entries.len() && (#[trigger] entries[i]).name@ == name && shown(
            config,
            entries[i],
        ) {
        let i = choose|i: int|
            0 <= i < entries.len() && (#[trigger] entries[i]).name@ == name && shown(
                config,
                entries[i],
            );
        assert(order.contains(i));
        let k = choose|k: int| 0 <= k < order.len() && order[k] == i;
        assert(own[k].name == name);
    }
}

/// Every shown entry of a directory has one line of its own, and no entry has two.
pub proof fn lemma_each_entry_once(config: ConfigView, entries: Seq<Entry>)
    ensures
        forall|i: int|
            0 <= i < entries.len() && shown(config, entries[i]) ==> #[trigger] display_order(
                config,
                entries,
            ).contains(i),
        forall|a: int, b: int|
            0 <= a < b < display_order(config, entries).len() ==> #[trigger] display_order(
                config,
                entries,
            )[a] != #[trigger] display_order(config, entries)[b],
{
    let order = display_order(config, entries);
    lemma_display_order(config, entries);
    assert forall|a: int, b: int| 0 <= a < b < order.len() implies #[trigger] order[a]
        != #[trigger] order[b] by {
        lemma_name_less_strict_total(
            entries[order[a]].name@,
            entries[order[a]].name@,
            entries[order[a]].name@,
        );
        assert(entry_before(entries, order[a], order[b]));
    }
}

/// A directory's own lines never go back in name order.
pub proof fn lemma_names_ascend(config: ConfigView, dir: Dir, columns: Seq<bool>)
    ensures
        forall|a: int, b: int|
            0 <= a < b < own_lines(config, dir, columns).len() ==> !name_less(
                (#[trigger] own_lines(config, dir, columns)[b]).name,
                (#[trigger] own_lines(config, dir, columns)[a]).name,
            ),
{
    let own = own_lines(config, dir, columns);
    if dir.listing is Ok {
        let entries = dir.listing->Ok_0@;
        let order = display_order(config, entries);
        lemma_display_order(config, entries);
        assert forall|a: int, b: int| 0 <= a < b < own.len() implies !name_less(
            (#[trigger] own[b]).name,
            (#[trigger] own[a]).name,
        ) by {
            assert(entry_before(entries, order[a], order[b]));
            lemma_name_less_strict_total(own[a].name, own[b].name, own[a].name);
        }
    }
}

/// Where the shown entries of a directory bear different names, its own
/// lines stand in strictly increasing name order.
pub proof fn lemma_names_strictly_ascend(config: ConfigView, dir: Dir, columns: Seq<bool>)
    requires
        dir.listing is Ok,
        forall|i: int, j: int|
            0 <= i < j < dir.listing->Ok_0@.len() && shown(config, dir.listing->Ok_0@[i]) && shown(
                config,
                dir.listing->Ok_0@[j],
            ) ==> (#[trigger] dir.listing->Ok_0@[i]).name@ != (#[trigger] dir.listing->Ok_0@[j]).name@,
    ensures
        forall|a: int, b: int|
            0 <= a < b < own_lines(config, dir, columns).len() ==> name_less(
                (#[trigger] own_lines(config, dir, columns)[a]).name,
                (#[trigger] own_lines(config, dir, columns)[b]).name,
            ),
{
    let own = own_lines(config, dir, columns);
    let entries = dir.listing->Ok_0@;
    let order = display_order(config, entries);
    lemma_display_order(config, entries);
    lemma_each_entry_once(config, entries);
    assert forall|a: int, b: int| 0 <= a < b < own.len() implies name_less(
        (#[trigger] own[a]).name,
        (#[trigger] own[b]).name,
    ) by {
        assert(entry_before(entries, order[a], order[b]));
        assert(order[a] != order[b]);
        let i = order[a];
        let j = order[b];
        if i < j {
            assert(entries[i].name@ != entries[j].name@);
        } else {
            assert(entries[j].name@ != entries[i].name@);
        }
    }
}

/// Of a directory's own lines the final one is marked as the last, and no other is.
pub proof fn lemma_one_last(config: ConfigView, dir: Dir, columns: Seq<bool>)
    ensures
        forall|k: int|
            0 <= k < own_lines(config, dir, columns).len() ==> ((#[trigger] own_lines(
                config,
                dir,
                columns,
            )[k]).last <==> k == own_lines(config, dir, columns).len() - 1),
{
}

/// A walk is determined by what it starts from: two walks of the same
/// directory under the same configuration, from the same totals and lines,
/// end with the same totals, lines and result.
pub proof fn lemma_walk_repeats(
    config: ConfigView,
    dir: Dir,
    columns: Seq<bool>,
    before: Counts,
    shown: Seq<LineView>,
    first: (Counts, Seq<LineView>, Result<(), IoErrorKind>),
    second: (Counts, Seq<LineView>, Result<(), IoErrorKind>),
)
    requires
        applied(before, shown, walk_dir(config, dir, columns), first.0, first.1, first.2),
        applied(before, shown, walk_dir(config, dir, columns), second.0, second.1, second.2),
    ensures
        first == second,
{
}

/// Without colours every column of indentation is four wide, and so is the
/// branch: the indentation of a line is four times as wide as the line is deep.
pub proof fn lemma_indentation_width(columns: Seq<bool>)
    ensures
        indent(columns, bar()).len() == 4 * columns.len(),
        glyph(true).len() == 4,
        glyph(false).len() == 4,
    decreases columns.len(),
{
    reveal_strlit("│");
    reveal_strlit("   ");
    reveal_strlit("    ");
    reveal_strlit("└── ");
    reveal_strlit("├── ");
    if columns.len() > 0 {
        lemma_indentation_width(columns.drop_last());
    }
}

/// The text of a line without colours is one of its renderings, and a
/// function of the line alone.
pub proof fn lemma_plain_text_renders(line: LineView, indentation: bool)
    ensures
        is_rendering(plain_text(line, indentation), line, indentation),
{
    let z = decimal_size(line.size.unwrap_or(0));
    assert(plain_text(line, indentation) == line_text(
        line,
        indentation,
        bar(),
        glyph(line.last),
        line.base,
        line.name,
        z,
    ));
}

/// `b` is `a` as far as a walk looks at it: the same paths, names and kinds
/// all the way down, the same listings of the directories that are shown,
/// and the same sizes of the files that are shown where sizes are.
pub open spec fn same_as_read(config: ConfigView, a: Dir, b: Dir) -> bool
    decreases a, 1nat,
{
    &&& a.path@ == b.path@
    &&& match (a.listing, b.listing) {
        (Ok(x), Ok(y)) => {
            &&& x@.len() == y@.len()
            &&& forall|i: int|
                0 <= i < x@.len() ==> same_entry_as_read(config, #[trigger] x@[i], y@[i])
        },
        (Err(k), Err(l)) => k == l,
        _ => false,
    }
}

/// `b` is the entry `a` as far as a walk looks at it.
pub open spec fn same_entry_as_read(config: ConfigView, a: Entry, b: Entry) -> bool
    decreases a, 0nat,
{
    &&& a.name@ == b.name@
    &&& shown(config, a) ==> match (a.node, b.node) {
        (Node::File { size: s }, Node::File { size: t }) => config.display_bytes ==> s == t,
        (Node::Directory(c), Node::Directory(d)) => same_as_read(config, c, d),
        _ => false,
    }
    &&& a.is_dir() == b.is_dir()
}

proof fn lemma_same_order(config: ConfigView, x: Seq<Entry>, y: Seq<Entry>)
    requires
        x.len() == y.len(),
        forall|i: int|
            0 <= i < x.len() ==> (#[trigger] x[i]).name@ == y[i].name@ && x[i].is_dir()
                == y[i].is_dir(),
    ensures
        display_order(config, x) == display_order(config, y),
{
    lemma_display_order(config, x);
    lemma_display_order(config, y);
    let order = display_order(config, x);
    assert forall|k: int| 0 <= k < order.len() implies 0 <= #[trigger] order[k] < y.len() && shown(
        config,
        y[order[k]],
    ) by {
        assert(x[order[k]].name@ == y[order[k]].name@);
    }
    assert forall|i: int| 0 <= i < y.len() && shown(config, y[i]) implies #[trigger] order.contains(
        i,
    ) by {
        assert(x[i].name@ == y[i].name@);
    }
    assert forall|a: int, b: int| 0 <= a < b < order.len() implies entry_before(
        y,
        #[trigger] order[a],
        #[trigger] order[b],
    ) by {
        assert(entry_before(x, order[a], order[b]));
        assert(x[order[a]].name@ == y[order[a]].name@);
        assert(x[order[b]].name@ == y[order[b]].name@);
    }
    assert(is_display_order(config, y, order));
}

proof fn lemma_same_entry_walk(
    config: ConfigView,
    base: Seq<char>,
    a: Entry,
    b: Entry,
    last: bool,
    columns: Seq<bool>,
)
    requires
        same_entry_as_read(config, a, b),
        shown(config, a),
    ensures
        walk_entry(config, base, a, last, columns) == walk_entry(config, base, b, last, columns),
    decreases a, 0nat,
{
    match (a.node, b.node) {
        (Node::Directory(c), Node::Directory(d)) => {
            lemma_same_dir_walk(config, c, d, columns.push(!last));
        },
        _ => {},
    }
}

proof fn lemma_same_dir_walk(config: ConfigView, a: Dir, b: Dir, columns: Seq<bool>)
    requires
        same_as_read(config, a, b),
    ensures
        walk_dir(config, a, columns) == walk_dir(config, b, columns),
    decreases a, 2nat, 0nat,
{
    match (a.listing, b.listing) {
        (Ok(x), Ok(y)) => {
            assert forall|i: int| 0 <= i < x@.len() implies (#[trigger] x@[i]).name@ == y@[i].name@
                && x@[i].is_dir() == y@[i].is_dir() by {
                assert(same_entry_as_read(config, x@[i], y@[i]));
            }
            lemma_same_order(config, x@, y@);
            lemma_display_order(config, x@);
            lemma_same_from_walk(config, a, b, display_order(config, x@), columns, 0);
        },
        _ => {},
    }
}

proof fn lemma_same_from_walk(
    config: ConfigView,
    a: Dir,
    b: Dir,
    order: Seq<int>,
    columns: Seq<bool>,
    k: int,
)
    requires
        same_as_read(config, a, b),
        a.listing is Ok,
        is_display_order(config, a.listing->Ok_0@, order),
        0 <= k <= order.len(),
    ensures
        walk_from(config, a, order, columns, k) == walk_from(config, b, order, columns, k),
    decreases a, 1nat, order.len() - k,
{
    if k < order.len() {
        let x = a.listing->Ok_0@;
        let y = b.listing->Ok_0@;
        let base = label_base(config, a.path@);
        assert(same_entry_as_read(config, x[order[k]], y[order[k]]));
        lemma_same_entry_walk(config, base, x[order[k]], y[order[k]], k == order.len() - 1, columns);
        lemma_same_from_walk(config, a, b, order, columns, k + 1);
    }
}

/// A walk looks at nothing but what it shows: two hierarchies that differ
/// only in the listings of directories that are not shown, and in the sizes
/// of files that are not shown or whose sizes are not, give the same walk.
pub proof fn lemma_walk_reads_what_is_shown(
    config: ConfigView,
    a: Dir,
    b: Dir,
    columns: Seq<bool>,
)
    requires
        same_as_read(config, a, b),
    ensures
        walk_dir(config, a, columns) == walk_dir(config, b, columns),
{
    lemma_same_dir_walk(config, a, b, columns);
}

} // verus!
