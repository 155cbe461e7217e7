//! The recursive walk: render a directory, then each of its
//! subdirectories in turn, depth-first, each with a `path:` header and a
//! trailing blank line. The walk works on an in-memory tree that the
//! surrounding program fills from the filesystem, so the walk itself and
//! everything it emits is plain computation.

use vstd::prelude::*;
use vstd::string::StrSliceExecFns;
use vstd::string::StringExecFns;
use crate::flags::Flags;
use crate::is_hidden;
use crate::collect::{spec_collect, collect_entries, name_is_hidden};
use crate::sort::{spec_ci_sort, sort_names_ci, spec_time_sort, sort_by_mod_time, TimedName};
use crate::layout::{spec_render_filenames, render_filenames};
use crate::longfmt::{
    EntryMetadata, LongEntry, long_line_of, placeholder_line_of, time_text_of, total_blocks_of,
    render_long, entry_line_ok,
};
use crate::text::dec_of;

verus! {

broadcast use vstd::std_specs::vec::group_vec_axioms;

/// One child of a directory in the walked tree: its name, its metadata
/// when it could be read, and its own subtree when it is a directory the
/// walk may descend into (never reached through a symlink).
pub struct TreeEntry {
    pub name: String,
    pub meta: Option<EntryMetadata>,
    pub subtree: Option<Box<DirTree>>,
}

/// A directory in the walked tree: the path shown in its header line and
/// its immediate children.
pub struct DirTree {
    pub path: String,
    pub entries: Vec<TreeEntry>,
}

/// The raw child names of a directory, in tree order.
pub open spec fn entry_names(entries: Seq<TreeEntry>) -> Seq<Seq<char>> {
    entries.map_values(|e: TreeEntry| e.name@)
}

/// The metadata recorded for the first entry called `name`, if any.
pub open spec fn meta_for(entries: Seq<TreeEntry>, name: Seq<char>) -> Option<EntryMetadata>
    decreases entries.len(),
{
    if entries.len() == 0 {
        None
    } else if entries[0].name@ == name {
        entries[0].meta
    } else {
        meta_for(entries.drop_first(), name)
    }
}

/// The timestamp the time sort uses for `name`: the recorded
/// modification time, or zero when no metadata is recorded.
pub open spec fn mtime_for(entries: Seq<TreeEntry>, name: Seq<char>) -> int {
    match meta_for(entries, name) {
        Some(m) => m.mtime as int,
        None => 0,
    }
}

/// The names of one directory's listing: collected under the hidden-entry
/// policy, then sorted by the order the flags select.
pub open spec fn listing_names(entries: Seq<TreeEntry>, flags: Flags) -> Seq<Seq<char>> {
    let collected = spec_collect(entry_names(entries), flags.show_all);
    if flags.sort_by_time {
        spec_time_sort(
            collected.map_values(|n: Seq<char>| (n, mtime_for(entries, n))),
        ).map_values(|p: (Seq<char>, int)| p.0)
    } else {
        spec_ci_sort(collected)
    }
}

/// Total blocks of the listed names, read through the tree's metadata.
pub open spec fn total_blocks_via(entries: Seq<TreeEntry>, names: Seq<Seq<char>>) -> nat
    decreases names.len(),
{
    if names.len() == 0 {
        0
    } else {
        total_blocks_via(entries, names.drop_last()) + (match meta_for(entries, names.last()) {
            Some(m) => m.blocks as nat,
            None => 0nat,
        })
    }
}

/// What one long-format line says about the listed `name`, looked up in
/// the tree.
pub open spec fn line_for_name_ok(line: Seq<char>, entries: Seq<TreeEntry>, name: Seq<char>) -> bool {
    match meta_for(entries, name) {
        Some(m) => exists|o: Seq<char>, g: Seq<char>|
            line == #[trigger] long_line_of(name, m, o, g, time_text_of(m.mtime)),
        None => line == placeholder_line_of(name),
    }
}

/// What a long-format body must look like for one directory: the summary
/// line, then one line per listed name, in listing order.
pub open spec fn long_listing_ok(
    lines: Seq<Seq<char>>,
    entries: Seq<TreeEntry>,
    flags: Flags,
) -> bool {
    let names = listing_names(entries, flags);
    &&& lines.len() == names.len() + 1
    &&& lines[0] == seq!['t', 'o', 't', 'a', 'l', ' '] + dec_of(total_blocks_via(entries, names) / 2)
    &&& forall|i: int| 0 <= i < names.len() ==> line_for_name_ok(#[trigger] lines[i + 1], entries, names[i])
}

/// What the body of one directory's listing must look like, for either
/// format.
pub open spec fn listing_ok(
    lines: Seq<Seq<char>>,
    entries: Seq<TreeEntry>,
    flags: Flags,
    width: Option<usize>,
) -> bool {
    if flags.long_format {
        long_listing_ok(lines, entries, flags)
    } else {
        lines == spec_render_filenames(listing_names(entries, flags), width)
    }
}

/// The walk descends into a child when it has a subtree and the
/// hidden-entry rule does not filter it.
pub open spec fn should_recurse(e: TreeEntry, flags: Flags) -> bool {
    (flags.show_all || !is_hidden(e.name@)) && e.subtree is Some
}

/// How many lines one directory's body takes: the listing plus, in long
/// format, the summary line.
pub open spec fn listing_len(
    entries: Seq<TreeEntry>,
    flags: Flags,
    width: Option<usize>,
) -> nat {
    if flags.long_format {
        listing_names(entries, flags).len() + 1
    } else {
        spec_render_filenames(listing_names(entries, flags), width).len()
    }
}

/// How many lines a full walk of `t` emits.
pub open spec fn tree_render_len(t: DirTree, flags: Flags, width: Option<usize>) -> nat
    decreases t,
{
    2 + listing_len(t.entries@, flags, width) + segments_len(
        t.entries@,
        0,
        t.entries@.len() as int,
        flags,
        width,
    )
}

/// How many lines the walks of the recursed children in `lo..hi` emit.
pub open spec fn segments_len(
    entries: Seq<TreeEntry>,
    lo: int,
    hi: int,
    flags: Flags,
    width: Option<usize>,
) -> nat
    decreases entries, hi - lo,
{
    if lo >= hi || lo < 0 || hi > entries.len() {
        0
    } else if should_recurse(entries[hi - 1], flags) {
        segments_len(entries, lo, hi - 1, flags, width) + tree_render_len(
            *entries[hi - 1].subtree->0,
            flags,
            width,
        )
    } else {
        segments_len(entries, lo, hi - 1, flags, width)
    }
}

/// What a full walk's output must look like for one directory: its
/// header, its body, a blank line, and then the walks of its recursed
/// children in order.
pub open spec fn tree_render_ok(
    lines: Seq<Seq<char>>,
    t: DirTree,
    flags: Flags,
    width: Option<usize>,
) -> bool
    decreases t,
{
    let bl = listing_len(t.entries@, flags, width) as int;
    &&& lines.len() == tree_render_len(t, flags, width)
    &&& lines.len() >= 2 + bl
    &&& lines[0] == t.path@ + seq![':']
    &&& listing_ok(lines.subrange(1, 1 + bl), t.entries@, flags, width)
    &&& lines[1 + bl] == Seq::<char>::empty()
    &&& segments_ok(
        lines.skip(2 + bl),
        t.entries@,
        0,
        t.entries@.len() as int,
        flags,
        width,
    )
}

/// The concatenated walks of the recursed children with indices in
/// `lo..hi`, defined from the right so a walk grows by appending one
/// child's segment at a time.
pub open spec fn segments_ok(
    rest: Seq<Seq<char>>,
    entries: Seq<TreeEntry>,
    lo: int,
    hi: int,
    flags: Flags,
    width: Option<usize>,
) -> bool
    decreases entries, hi - lo,
{
    if lo >= hi || lo < 0 || hi > entries.len() {
        rest == Seq::<Seq<char>>::empty()
    } else if should_recurse(entries[hi - 1], flags) {
        let sublen = tree_render_len(*entries[hi - 1].subtree->0, flags, width) as int;
        &&& rest.len() >= sublen
        &&& tree_render_ok(
            rest.skip(rest.len() - sublen),
            *entries[hi - 1].subtree->0,
            flags,
            width,
        )
        &&& segments_ok(rest.take(rest.len() - sublen), entries, lo, hi - 1, flags, width)
    } else {
        segments_ok(rest, entries, lo, hi - 1, flags, width)
    }
}

/// A field-for-field copy of a metadata record.
fn clone_meta(m: &EntryMetadata) -> (r: EntryMetadata)
    ensures
        r == *m,
{
    EntryMetadata {
        kind: m.kind,
        mode: m.mode,
        nlink: m.nlink,
        uid: m.uid,
        gid: m.gid,
        size: m.size,
        mtime: m.mtime,
        blocks: m.blocks,
        symlink_target: match &m.symlink_target {
            Some(t) => Some(t.clone()),
            None => None,
        },
    }
}

/// Looking a name up ignores any prefix of entries with other names.
proof fn lemma_meta_for_skip(entries: Seq<TreeEntry>, name: Seq<char>, i: int)
    requires
        0 <= i <= entries.len(),
        forall|j: int| 0 <= j < i ==> (#[trigger] entries[j].name)@ != name,
    ensures
        meta_for(entries, name) == meta_for(entries.skip(i), name),
    decreases i,
{
    if i > 0 {
        assert(entries[0].name@ != name);
        assert forall|j: int| 0 <= j < i - 1 implies (#[trigger] entries.drop_first()[j].name)@
            != name by {
            assert(entries.drop_first()[j] == entries[j + 1]);
        }
        lemma_meta_for_skip(entries.drop_first(), name, i - 1);
        assert(entries.drop_first().skip(i - 1) =~= entries.skip(i));
    } else {
        assert(entries.skip(0) =~= entries);
    }
}

/// The metadata recorded in the tree for the first entry called `name`.
fn lookup_meta(entries: &Vec<TreeEntry>, name: &String) -> (r: Option<EntryMetadata>)
    ensures
        r == meta_for(entries@, name@),
{
    let mut i: usize = 0;
    while i < entries.len()
        invariant
            i <= entries@.len(),
            forall|j: int| 0 <= j < i ==> (#[trigger] entries@[j].name)@ != name@,
        decreases entries@.len() - i,
    {
        if entries[i].name == *name {
            proof {
                lemma_meta_for_skip(entries@, name@, i as int);
                assert(entries@.skip(i as int)[0] == entries@[i as int]);
            }
            return match &entries[i].meta {
                Some(m) => Some(clone_meta(m)),
                None => None,
            };
        }
        i = i + 1;
    }
    proof {
        lemma_meta_for_skip(entries@, name@, entries@.len() as int);
    }
    None
}

/// Push one line, tracking the view-level sequence.
fn push_line(dst: &mut Vec<String>, s: String)
    ensures
        final(dst).deep_view() == old(dst).deep_view().push(s@),
{
    let ghost pre = dst.deep_view();
    let ghost sv = s@;
    dst.push(s);
    proof {
        assert forall|q: int| 0 <= q < dst.deep_view().len() implies dst.deep_view()[q] == pre.push(
            sv,
        )[q] by {
            if q < pre.len() {
                assert(dst.deep_view()[q] == pre[q]);
            } else {
                assert(dst.deep_view()[q] == sv);
            }
        }
        assert(dst.deep_view() =~= pre.push(sv));
    }
}

/// Copy each line of `src` onto the end of `dst`.
#[verifier::loop_isolation(false)]
fn append_lines(dst: &mut Vec<String>, src: &Vec<String>)
    ensures
        final(dst).deep_view() == old(dst).deep_view() + src.deep_view(),
{
    let mut k: usize = 0;
    proof {
        assert(old(dst).deep_view() + src.deep_view().take(0) =~= old(dst).deep_view());
    }
    while k < src.len()
        invariant
            k <= src.len(),
            dst.deep_view() == old(dst).deep_view() + src.deep_view().take(k as int),
        decreases src.len() - k,
    {
        let ghost pre = dst.deep_view();
        dst.push(src[k].clone());
        proof {
            assert forall|q: int| 0 <= q < dst.deep_view().len() implies dst.deep_view()[q] == (old(
                dst,
            ).deep_view() + src.deep_view().take(k + 1))[q] by {
                if q < pre.len() {
                    assert(dst.deep_view()[q] == pre[q]);
                } else {
                    assert(dst.deep_view()[q] == src.deep_view()[k as int]);
                }
            }
            assert(dst.deep_view() =~= old(dst).deep_view() + src.deep_view().take(k + 1));
        }
        k = k + 1;
    }
    proof {
        assert(src.deep_view().take(src.len() as int) =~= src.deep_view());
    }
}

/// Block totals agree when each listing entry carries the metadata the
/// tree records for its name.
proof fn lemma_total_blocks_match(les: Seq<LongEntry>, entries: Seq<TreeEntry>, names: Seq<Seq<char>>)
    requires
        les.len() == names.len(),
        forall|q: int| 0 <= q < les.len() ==> #[trigger] les[q].meta == meta_for(entries, names[q]),
    ensures
        total_blocks_of(les) == total_blocks_via(entries, names),
    decreases les.len(),
{
    if les.len() > 0 {
        assert forall|q: int| 0 <= q < les.len() - 1 implies #[trigger] les.drop_last()[q].meta
            == meta_for(entries, names.drop_last()[q]) by {
            assert(les.drop_last()[q] == les[q]);
            assert(names.drop_last()[q] == names[q]);
        }
        lemma_total_blocks_match(les.drop_last(), entries, names.drop_last());
        assert(les.last().meta == meta_for(entries, names.last()));
    }
}

/// The raw child names of the tree's entries, in order.
#[verifier::loop_isolation(false)]
fn names_of_entries(entries: &Vec<TreeEntry>) -> (raw: Vec<String>)
    ensures
        raw.deep_view() == entry_names(entries@),
{
    let mut raw: Vec<String> = Vec::new();
    let mut k: usize = 0;
    while k < entries.len()
        invariant
            k <= entries.len(),
            raw@.len() == k,
            forall|q: int| 0 <= q < k ==> #[trigger] raw.deep_view()[q] == entries@[q].name@,
        decreases entries.len() - k,
    {
        let ghost pre = raw.deep_view();
        raw.push(entries[k].name.clone());
        proof {
            assert forall|q: int| 0 <= q < raw.deep_view().len() implies #[trigger] raw.deep_view()[q]
                == entries@[q].name@ by {
                if q < pre.len() {
                    assert(raw.deep_view()[q] == pre[q]);
                } else {
                    assert(raw.deep_view()[q] == entries@[k as int].name@);
                }
            }
        }
        k = k + 1;
    }
    proof {
        assert(raw.deep_view() =~= entry_names(entries@));
    }
    raw
}

/// One directory's listing lines, without header: names collected under
/// the hidden-entry policy, sorted as the flags direct, and rendered in
/// the chosen format for the given terminal width.
#[verifier::loop_isolation(false)]
pub fn render_listing(entries: &Vec<TreeEntry>, flags: &Flags, width: Option<usize>) -> (lines: Vec<
    String,
>)
    ensures
        listing_ok(lines.deep_view(), entries@, *flags, width),
{
    let ghost collected = spec_collect(entry_names(entries@), flags.show_all);
    let ghost names = listing_names(entries@, *flags);
    let raw = names_of_entries(entries);
    let mut sorted = collect_entries(&raw, flags.show_all);
    if flags.sort_by_time {
        let ghost pairs = collected.map_values(
            |n: Seq<char>| (n, mtime_for(entries@, n)),
        );
        let mut timed: Vec<TimedName> = Vec::new();
        let mut k: usize = 0;
        while k < sorted.len()
            invariant
                k <= sorted.len(),
                sorted.deep_view() == collected,
                timed@.len() == k,
                forall|q: int| 0 <= q < k ==> #[trigger] timed.deep_view()[q] == pairs[q],
            decreases sorted.len() - k,
        {
            let mt = match lookup_meta(entries, &sorted[k]) {
                Some(m) => m.mtime,
                None => 0,
            };
            let ghost pre = timed.deep_view();
            timed.push(TimedName { name: sorted[k].clone(), mtime: mt });
            proof {
                assert forall|q: int| 0 <= q < timed.deep_view().len() implies #[trigger] timed.deep_view()[q]
                    == pairs[q] by {
                    if q < pre.len() {
                        assert(timed.deep_view()[q] == pre[q]);
                    } else {
                        assert(timed.deep_view()[q] == (collected[q], mtime_for(entries@, collected[q])));
                    }
                }
            }
            k = k + 1;
        }
        proof {
            assert(timed.deep_view() =~= pairs);
        }
        sort_by_mod_time(&mut timed);
        let mut names2: Vec<String> = Vec::new();
        let mut k2: usize = 0;
        while k2 < timed.len()
            invariant
                k2 <= timed.len(),
                timed.deep_view() == spec_time_sort(pairs),
                names2@.len() == k2,
                forall|q: int|
                    0 <= q < k2 ==> #[trigger] names2.deep_view()[q] == spec_time_sort(pairs)[q].0,
            decreases timed.len() - k2,
        {
            let ghost pre = names2.deep_view();
            names2.push(timed[k2].name.clone());
            proof {
                assert forall|q: int| 0 <= q < names2.deep_view().len() implies #[trigger] names2.deep_view()[q]
                    == spec_time_sort(pairs)[q].0 by {
                    if q < pre.len() {
                        assert(names2.deep_view()[q] == pre[q]);
                    } else {
                        assert(names2.deep_view()[q] == timed.deep_view()[k2 as int].0);
                    }
                }
            }
            k2 = k2 + 1;
        }
        proof {
            assert(names2.deep_view() =~= spec_time_sort(pairs).map_values(
                |p: (Seq<char>, int)| p.0,
            ));
            assert(names2.deep_view() == names);
        }
        sorted = names2;
    } else {
        sort_names_ci(&mut sorted);
        proof {
            assert(sorted.deep_view() == names);
        }
    }
    if flags.long_format {
        let mut les: Vec<LongEntry> = Vec::new();
        let mut k: usize = 0;
        while k < sorted.len()
            invariant
                k <= sorted.len(),
                sorted.deep_view() == names,
                les@.len() == k,
                forall|q: int|
                    0 <= q < k ==> (#[trigger] les@[q]).name@ == names[q] && les@[q].meta
                        == meta_for(entries@, names[q]),
            decreases sorted.len() - k,
        {
            let meta = lookup_meta(entries, &sorted[k]);
            les.push(LongEntry { name: sorted[k].clone(), meta });
            k = k + 1;
        }
        let lines = render_long(&les);
        proof {
            lemma_total_blocks_match(les@, entries@, names);
            assert forall|i: int| 0 <= i < names.len() implies line_for_name_ok(
                #[trigger] lines.deep_view()[i + 1],
                entries@,
                names[i],
            ) by {
                assert(entry_line_ok(lines.deep_view()[i + 1], les@[i]));
                match les@[i].meta {
                    Some(m) => {
                        let (o, g) = choose|o: Seq<char>, g: Seq<char>|
                            lines.deep_view()[i + 1] == #[trigger] long_line_of(
                                les@[i].name@,
                                m,
                                o,
                                g,
                                time_text_of(m.mtime),
                            );
                        assert(lines.deep_view()[i + 1] == long_line_of(
                            names[i],
                            m,
                            o,
                            g,
                            time_text_of(m.mtime),
                        ));
                    },
                    None => {
                    },
                }
            }
        }
        lines
    } else {
        render_filenames(&sorted, width)
    }
}

/// Walk the tree: render this directory under its `path:` header, then
/// each recursed child's walk in order, a blank line after each body.
#[verifier::loop_isolation(false)]
pub fn render_tree(t: &DirTree, flags: &Flags, width: Option<usize>) -> (lines: Vec<String>)
    ensures
        tree_render_ok(lines.deep_view(), *t, *flags, width),
    decreases *t,
{
    proof {
        reveal_strlit(":");
    }
    let mut lines: Vec<String> = Vec::new();
    let mut header = t.path.clone();
    header.append(":");
    proof {
        assert(header@ =~= t.path@ + seq![':']);
    }
    push_line(&mut lines, header);
    let body = render_listing(&t.entries, flags, width);
    append_lines(&mut lines, &body);
    push_line(&mut lines, String::new());
    let ghost prefix = lines.deep_view();
    let ghost bl = listing_len(t.entries@, *flags, width) as int;
    proof {
        assert(body.deep_view().len() == bl);
        assert(prefix =~= seq![t.path@ + seq![':']] + body.deep_view() + seq![
            Seq::<char>::empty(),
        ]);
        assert(segments_ok(Seq::empty(), t.entries@, 0, 0, *flags, width));
    }
    let ghost mut rest_acc: Seq<Seq<char>> = Seq::empty();
    proof {
        assert(lines.deep_view() =~= prefix + rest_acc);
    }
    let mut i: usize = 0;
    while i < t.entries.len()
        invariant
            i <= t.entries.len(),
            lines.deep_view() == prefix + rest_acc,
            segments_ok(rest_acc, t.entries@, 0, i as int, *flags, width),
            rest_acc.len() == segments_len(t.entries@, 0, i as int, *flags, width),
        decreases t.entries.len() - i,
    {
        let e = &t.entries[i];
        let hidden = name_is_hidden(&e.name);
        if flags.show_all || !hidden {
            match &e.subtree {
                Some(st) => {
                    let sub = render_tree(st, flags, width);
                    append_lines(&mut lines, &sub);
                    proof {
                        let seg = sub.deep_view();
                        let stv = *t.entries@[i as int].subtree->0;
                        assert(should_recurse(t.entries@[i as int], *flags));
                        assert(tree_render_ok(seg, stv, *flags, width));
                        let sublen = tree_render_len(stv, *flags, width) as int;
                        assert(seg.len() == sublen);
                        let newrest = rest_acc + seg;
                        assert(newrest.skip(newrest.len() - sublen) =~= seg);
                        assert(newrest.take(newrest.len() - sublen) =~= rest_acc);
                        assert(segments_ok(newrest, t.entries@, 0, i + 1, *flags, width));
                        rest_acc = newrest;
                        assert(lines.deep_view() =~= prefix + rest_acc);
                    }
                },
                None => {
                    proof {
                        assert(!should_recurse(t.entries@[i as int], *flags));
                        assert(segments_ok(rest_acc, t.entries@, 0, i + 1, *flags, width));
                    }
                },
            }
        } else {
            proof {
                assert(!should_recurse(t.entries@[i as int], *flags));
                assert(segments_ok(rest_acc, t.entries@, 0, i + 1, *flags, width));
            }
        }
        i = i + 1;
    }
    proof {
        let lv = lines.deep_view();
        assert(lv.len() == 2 + bl + rest_acc.len());
        assert(lv[0] == t.path@ + seq![':']);
        assert(lv.subrange(1, 1 + bl) =~= body.deep_view());
        assert(lv[1 + bl] == Seq::<char>::empty());
        assert(lv.skip(2 + bl) =~= rest_acc);
        assert(tree_render_ok(lv, *t, *flags, width));
    }
    lines
}

/// As `render_listing`, with the terminal asked for its width once.
pub fn render_listing_to_terminal(entries: &Vec<TreeEntry>, flags: &Flags) -> (lines: Vec<String>)
    ensures
        exists|w: Option<usize>| #[trigger] listing_ok(lines.deep_view(), entries@, *flags, w),
{
    let w = crate::layout::terminal_width();
    let lines = render_listing(entries, flags, w);
    proof {
        assert(listing_ok(lines.deep_view(), entries@, *flags, w));
    }
    lines
}

/// As `render_tree`, with the terminal asked for its width once.
pub fn render_tree_to_terminal(t: &DirTree, flags: &Flags) -> (lines: Vec<String>)
    ensures
        exists|w: Option<usize>| #[trigger] tree_render_ok(lines.deep_view(), *t, *flags, w),
{
    let w = crate::layout::terminal_width();
    let lines = render_tree(t, flags, w);
    proof {
        assert(tree_render_ok(lines.deep_view(), *t, *flags, w));
    }
    lines
}

} // verus!
