//! The long (detailed) format: one line per entry with type character,
//! permission bits, link count, ownership, size and modification time,
//! preceded by a block-count summary line.

use vstd::prelude::*;
use vstd::string::StrSliceExecFns;
use vstd::string::StringExecFns;
use crate::text::{dec_of, to_decimal, pad_left, spaces, push_spaces};

verus! {

/// What kind of filesystem object an entry is, as reported by the
/// symlink-preserving stat: a symbolic link is reported as itself, never
/// followed.
#[derive(Clone, Copy)]
pub enum FileKind {
    Regular,
    Directory,
    Symlink,
}

/// The per-entry record the long format renders. Read once per entry and
/// never mutated afterwards.
pub struct EntryMetadata {
    pub kind: FileKind,
    /// Permission bits; only the low nine (rwx for owner, group, other)
    /// are rendered.
    pub mode: u32,
    pub nlink: u64,
    pub uid: u32,
    pub gid: u32,
    pub size: u64,
    /// Modification time, in whole seconds since the epoch.
    pub mtime: i64,
    /// Size on disk in 512-byte blocks, for the summary line.
    pub blocks: u64,
    /// Where a symbolic link points, when the entry is one.
    pub symlink_target: Option<String>,
}

/// Bit `i` of `mode`, with bit 8 = owner-read down to bit 0 =
/// other-execute.
pub open spec fn bit_set(mode: u32, i: u32) -> bool {
    mode & (1u32 << i) != 0
}

/// Test one permission bit.
pub fn get_bit(mode: u32, index: u8) -> (r: bool)
    requires
        index < 32,
    ensures
        r == bit_set(mode, index as u32),
{
    mode & (1u32 << (index as u32)) != 0
}

/// The nine permission characters: `r`, `w`, `x` where the matching bit
/// is set, `-` where it is not.
pub open spec fn perm_chars_of(mode: u32) -> Seq<char> {
    seq![
        if bit_set(mode, 8) {
            'r'
        } else {
            '-'
        },
        if bit_set(mode, 7) {
            'w'
        } else {
            '-'
        },
        if bit_set(mode, 6) {
            'x'
        } else {
            '-'
        },
        if bit_set(mode, 5) {
            'r'
        } else {
            '-'
        },
        if bit_set(mode, 4) {
            'w'
        } else {
            '-'
        },
        if bit_set(mode, 3) {
            'x'
        } else {
            '-'
        },
        if bit_set(mode, 2) {
            'r'
        } else {
            '-'
        },
        if bit_set(mode, 1) {
            'w'
        } else {
            '-'
        },
        if bit_set(mode, 0) {
            'x'
        } else {
            '-'
        },
    ]
}

/// Append the nine permission characters for `mode`.
pub fn push_permissions(mode: u32, output: &mut String)
    ensures
        final(output)@ == old(output)@ + perm_chars_of(mode),
{
    proof {
        reveal_strlit("r");
        reveal_strlit("w");
        reveal_strlit("x");
        reveal_strlit("-");
        assert(old(output)@ + perm_chars_of(mode).take(0) =~= old(output)@);
    }
    if get_bit(mode, 8) {
        output.append("r");
    } else {
        output.append("-");
    }
    proof {
        assert(output@ =~= old(output)@ + perm_chars_of(mode).take(1));
    }
    if get_bit(mode, 7) {
        output.append("w");
    } else {
        output.append("-");
    }
    proof {
        assert(output@ =~= old(output)@ + perm_chars_of(mode).take(2));
    }
    if get_bit(mode, 6) {
        output.append("x");
    } else {
        output.append("-");
    }
    proof {
        assert(output@ =~= old(output)@ + perm_chars_of(mode).take(3));
    }
    if get_bit(mode, 5) {
        output.append("r");
    } else {
        output.append("-");
    }
    proof {
        assert(output@ =~= old(output)@ + perm_chars_of(mode).take(4));
    }
    if get_bit(mode, 4) {
        output.append("w");
    } else {
        output.append("-");
    }
    proof {
        assert(output@ =~= old(output)@ + perm_chars_of(mode).take(5));
    }
    if get_bit(mode, 3) {
        output.append("x");
    } else {
        output.append("-");
    }
    proof {
        assert(output@ =~= old(output)@ + perm_chars_of(mode).take(6));
    }
    if get_bit(mode, 2) {
        output.append("r");
    } else {
        output.append("-");
    }
    proof {
        assert(output@ =~= old(output)@ + perm_chars_of(mode).take(7));
    }
    if get_bit(mode, 1) {
        output.append("w");
    } else {
        output.append("-");
    }
    proof {
        assert(output@ =~= old(output)@ + perm_chars_of(mode).take(8));
    }
    if get_bit(mode, 0) {
        output.append("x");
    } else {
        output.append("-");
    }
    proof {
        assert(output@ =~= old(output)@ + perm_chars_of(mode).take(9));
    }
    proof {
        assert(perm_chars_of(mode).take(9) =~= perm_chars_of(mode));
    }
}

/// Read the nine permission characters back into the nine mode bits.
pub open spec fn perm_bits_of(s: Seq<char>) -> u32 {
    (if s[0] == 'r' {
        0x100u32
    } else {
        0u32
    }) | (if s[1] == 'w' {
        0x80u32
    } else {
        0u32
    }) | (if s[2] == 'x' {
        0x40u32
    } else {
        0u32
    }) | (if s[3] == 'r' {
        0x20u32
    } else {
        0u32
    }) | (if s[4] == 'w' {
        0x10u32
    } else {
        0u32
    }) | (if s[5] == 'x' {
        0x8u32
    } else {
        0u32
    }) | (if s[6] == 'r' {
        0x4u32
    } else {
        0u32
    }) | (if s[7] == 'w' {
        0x2u32
    } else {
        0u32
    }) | (if s[8] == 'x' {
        0x1u32
    } else {
        0u32
    })
}

/// Law: permission rendering round-trips. Reading the nine rendered
/// characters back recovers exactly the nine low bits of the mode.
pub proof fn lemma_perm_round_trip(mode: u32)
    ensures
        perm_bits_of(perm_chars_of(mode)) == mode & 0x1ffu32,
{
    let s = perm_chars_of(mode);
    assert(perm_bits_of(s) == (if bit_set(mode, 8) {
        0x100u32
    } else {
        0u32
    }) | (if bit_set(mode, 7) {
        0x80u32
    } else {
        0u32
    }) | (if bit_set(mode, 6) {
        0x40u32
    } else {
        0u32
    }) | (if bit_set(mode, 5) {
        0x20u32
    } else {
        0u32
    }) | (if bit_set(mode, 4) {
        0x10u32
    } else {
        0u32
    }) | (if bit_set(mode, 3) {
        0x8u32
    } else {
        0u32
    }) | (if bit_set(mode, 2) {
        0x4u32
    } else {
        0u32
    }) | (if bit_set(mode, 1) {
        0x2u32
    } else {
        0u32
    }) | (if bit_set(mode, 0) {
        0x1u32
    } else {
        0u32
    }));
    assert((if mode & (1u32 << 8) != 0 {
        0x100u32
    } else {
        0u32
    }) | (if mode & (1u32 << 7) != 0 {
        0x80u32
    } else {
        0u32
    }) | (if mode & (1u32 << 6) != 0 {
        0x40u32
    } else {
        0u32
    }) | (if mode & (1u32 << 5) != 0 {
        0x20u32
    } else {
        0u32
    }) | (if mode & (1u32 << 4) != 0 {
        0x10u32
    } else {
        0u32
    }) | (if mode & (1u32 << 3) != 0 {
        0x8u32
    } else {
        0u32
    }) | (if mode & (1u32 << 2) != 0 {
        0x4u32
    } else {
        0u32
    }) | (if mode & (1u32 << 1) != 0 {
        0x2u32
    } else {
        0u32
    }) | (if mode & (1u32 << 0) != 0 {
        0x1u32
    } else {
        0u32
    }) == mode & 0x1ffu32) by (bit_vector);
}

/// The leading type character of a long-format line.
pub open spec fn kind_char(k: FileKind) -> char {
    match k {
        FileKind::Directory => 'd',
        FileKind::Symlink => 'l',
        FileKind::Regular => '-',
    }
}

/// The ` -> ` marker before a symlink's target.
pub open spec fn arrow() -> Seq<char> {
    seq![' ', '-', '>', ' ']
}

/// One long-format line, given the already-resolved owner and group
/// display names and the already-formatted timestamp.
pub open spec fn long_line_of(
    name: Seq<char>,
    meta: EntryMetadata,
    owner: Seq<char>,
    group: Seq<char>,
    timetext: Seq<char>,
) -> Seq<char> {
    seq![kind_char(meta.kind)] + perm_chars_of(meta.mode) + seq![' '] + dec_of(meta.nlink as nat)
        + seq![' '] + owner + seq![' '] + group + seq![' '] + pad_left(dec_of(meta.size as nat), 4)
        + spaces(2) + timetext + seq![' '] + name + (match meta.symlink_target {
        Some(t) => arrow() + t@,
        None => Seq::<char>::empty(),
    })
}

/// The timestamp text the long format shows: the formatted calendar
/// display for a representable time, a question mark otherwise.
pub open spec fn time_text_of(secs: i64) -> Seq<char> {
    if 0 <= secs <= MAX_DISPLAY_SECS {
        time_display_of(secs)
    } else {
        seq!['?']
    }
}

/// The calendar rendering (`Oct 11 14:30` style: abbreviated month,
/// space-padded day, hour and minute) of an epoch-seconds value.
pub uninterp spec fn time_display_of(secs: i64) -> Seq<char>;

/// The last epoch second of year 9999, comfortably inside the range the
/// calendar library accepts.
pub const MAX_DISPLAY_SECS: i64 = 253_402_300_799;

/// Relies on `chrono::DateTime::<Utc>::from_timestamp` and chrono's
/// `%b %e %H:%M` formatting: UTC calendar fields computed from the epoch
/// seconds alone, with fixed English month abbreviations. In-range
/// seconds (the `requires` stays far inside chrono's documented bounds)
/// always convert, and the format is three characters of month, a
/// space-padded day, and `HH:MM`, twelve characters in all.
#[verifier::external_body]
fn format_epoch_minutes(secs: i64) -> (r: String)
    requires
        0 <= secs <= MAX_DISPLAY_SECS,
    ensures
        r@ == time_display_of(secs),
        r@.len() == 12,
{
    let dt = chrono::DateTime::<chrono::Utc>::from_timestamp(secs, 0).unwrap();
    dt.format("%b %e %H:%M").to_string()
}

/// The modification-time column: the calendar display, or a question
/// mark for a timestamp the calendar cannot show.
pub fn mtime_display(secs: i64) -> (r: String)
    ensures
        r@ == time_text_of(secs),
{
    if 0 <= secs && secs <= MAX_DISPLAY_SECS {
        format_epoch_minutes(secs)
    } else {
        proof {
            reveal_strlit("?");
            assert("?"@ =~= seq!['?']);
        }
        String::from_str("?")
    }
}

/// Relies on `users::get_user_by_uid` and `User::name`: the account name
/// the running machine's user database gives for this id, if any. The
/// answer depends on that database, so nothing is promised about it.
#[verifier::external_body]
fn user_name_of(uid: u32) -> (r: Option<String>)
{
    match users::get_user_by_uid(uid) {
        Some(u) => match u.name().to_str() {
            Some(s) => Some(s.to_string()),
            None => None,
        },
        None => None,
    }
}

/// Relies on `users::get_group_by_gid` and `Group::name`: the group name
/// the running machine's group database gives for this id, if any.
#[verifier::external_body]
fn group_name_of(gid: u32) -> (r: Option<String>)
{
    match users::get_group_by_gid(gid) {
        Some(g) => match g.name().to_str() {
            Some(s) => Some(s.to_string()),
            None => None,
        },
        None => None,
    }
}

/// The display form of a resolved identity: the name when the lookup
/// found one, the numeric id otherwise. An unresolvable id is never an
/// error.
pub fn display_id(resolved: Option<String>, id: u32) -> (r: String)
    ensures
        match resolved {
            Some(name) => r@ == name@,
            None => r@ == dec_of(id as nat),
        },
{
    match resolved {
        Some(name) => name,
        None => to_decimal(id as u128),
    }
}

/// The owner column for a user id: the account name, or the number when
/// the machine cannot resolve it.
pub fn owner_display(uid: u32) -> (r: String) {
    display_id(user_name_of(uid), uid)
}

/// The group column for a group id.
pub fn group_display(gid: u32) -> (r: String) {
    display_id(group_name_of(gid), gid)
}

/// Assemble one long-format line from its resolved parts.
pub fn format_long_entry(
    name: &String,
    meta: &EntryMetadata,
    owner: &String,
    group: &String,
    timetext: &String,
) -> (r: String)
    ensures
        r@ == long_line_of(name@, *meta, owner@, group@, timetext@),
{
    proof {
        reveal_strlit("d");
        reveal_strlit("l");
        reveal_strlit("-");
        reveal_strlit(" ");
        reveal_strlit(" -> ");
    }
    let mut out = String::new();
    match meta.kind {
        FileKind::Directory => out.append("d"),
        FileKind::Symlink => out.append("l"),
        FileKind::Regular => out.append("-"),
    }
    proof {
        assert(out@ =~= seq![kind_char(meta.kind)]);
    }
    push_permissions(meta.mode, &mut out);
    out.append(" ");
    let nlink_str = to_decimal(meta.nlink as u128);
    out.append(nlink_str.as_str());
    out.append(" ");
    out.append(owner.as_str());
    out.append(" ");
    out.append(group.as_str());
    out.append(" ");
    let size_str = to_decimal(meta.size as u128);
    let size_len = size_str.as_str().unicode_len();
    if size_len < 4 {
        push_spaces(&mut out, 4 - size_len);
    }
    out.append(size_str.as_str());
    proof {
        if size_len < 4 {
            assert(pad_left(dec_of(meta.size as nat), 4) =~= spaces((4 - size_len) as nat) + dec_of(
                meta.size as nat,
            ));
        } else {
            assert(pad_left(dec_of(meta.size as nat), 4) =~= dec_of(meta.size as nat));
        }
    }
    push_spaces(&mut out, 2);
    out.append(timetext.as_str());
    out.append(" ");
    out.append(name.as_str());
    match &meta.symlink_target {
        Some(t) => {
            out.append(" -> ");
            out.append(t.as_str());
            proof {
                assert(" -> "@ =~= arrow());
            }
        },
        None => {
        },
    }
    proof {
        assert(" "@ =~= seq![' ']);
        assert(out@ =~= long_line_of(name@, *meta, owner@, group@, timetext@));
    }
    out
}

/// One entry of a long-format listing: the name, and the metadata when
/// it could be read. A metadata failure costs only this entry its
/// detail, never the rest of the listing.
pub struct LongEntry {
    pub name: String,
    pub meta: Option<EntryMetadata>,
}

/// The stand-in line for an entry whose metadata could not be read.
pub open spec fn placeholder_line_of(name: Seq<char>) -> Seq<char> {
    Seq::new(10, |i: int| '?') + seq![' '] + name
}

/// What one rendered line says about its entry: the full detail line for
/// some resolved owner and group when metadata is present, the
/// placeholder otherwise.
pub open spec fn entry_line_ok(line: Seq<char>, e: LongEntry) -> bool {
    match e.meta {
        Some(m) => exists|o: Seq<char>, g: Seq<char>|
            line == #[trigger] long_line_of(e.name@, m, o, g, time_text_of(m.mtime)),
        None => line == placeholder_line_of(e.name@),
    }
}

/// Render one entry whose metadata is present, resolving ownership and
/// formatting the timestamp.
fn long_entry_line(name: &String, meta: &EntryMetadata) -> (r: String)
    ensures
        exists|o: Seq<char>, g: Seq<char>|
            r@ == #[trigger] long_line_of(name@, *meta, o, g, time_text_of(meta.mtime)),
{
    let owner = owner_display(meta.uid);
    let group = group_display(meta.gid);
    let timetext = mtime_display(meta.mtime);
    let r = format_long_entry(name, meta, &owner, &group, &timetext);
    proof {
        assert(r@ == long_line_of(name@, *meta, owner@, group@, time_text_of(meta.mtime)));
    }
    r
}

/// The placeholder line for an entry without metadata.
fn placeholder_line(name: &String) -> (r: String)
    ensures
        r@ == placeholder_line_of(name@),
{
    proof {
        reveal_strlit("??????????");
        reveal_strlit(" ");
    }
    let mut out = String::new();
    out.append("??????????");
    out.append(" ");
    out.append(name.as_str());
    proof {
        assert(out@ =~= placeholder_line_of(name@));
    }
    out
}

/// Total 512-byte blocks over the entries whose metadata is known.
pub open spec fn total_blocks_of(entries: Seq<LongEntry>) -> nat
    decreases entries.len(),
{
    if entries.len() == 0 {
        0
    } else {
        total_blocks_of(entries.drop_last()) + (match entries.last().meta {
            Some(m) => m.blocks as nat,
            None => 0nat,
        })
    }
}

/// The summary line: `total` and the block count halved, converting the
/// 512-byte figures the metadata carries to 1024-byte blocks.
pub open spec fn total_line_of(entries: Seq<LongEntry>) -> Seq<char> {
    seq!['t', 'o', 't', 'a', 'l', ' '] + dec_of(total_blocks_of(entries) / 2)
}

/// Render a whole listing in long format: the summary line, then one
/// line per entry in the given order.
#[verifier::loop_isolation(false)]
pub fn render_long(entries: &Vec<LongEntry>) -> (lines: Vec<String>)
    ensures
        lines@.len() == entries@.len() + 1,
        lines.deep_view()[0] == total_line_of(entries@),
        forall|i: int|
            0 <= i < entries@.len() ==> entry_line_ok(
                #[trigger] lines.deep_view()[i + 1],
                entries@[i],
            ),
{
    let ghost es = entries@;
    // Sum the block counts; the total of fewer than 2^64 values each
    // below 2^64 stays far below the accumulator's bound.
    let mut total: u128 = 0;
    let mut i: usize = 0;
    proof {
        assert(es.take(0) =~= Seq::<LongEntry>::empty());
    }
    while i < entries.len()
        invariant
            i <= entries.len(),
            total as nat == total_blocks_of(es.take(i as int)),
            total <= i * 0x1_0000_0000_0000_0000u128,
        decreases entries.len() - i,
    {
        match &entries[i].meta {
            Some(m) => {
                total = total + (m.blocks as u128);
            },
            None => {
            },
        }
        proof {
            assert(es.take(i + 1).drop_last() =~= es.take(i as int));
            assert(es.take(i + 1).last() == es[i as int]);
            assert((i + 1) * 0x1_0000_0000_0000_0000u128 == i * 0x1_0000_0000_0000_0000u128
                + 0x1_0000_0000_0000_0000u128) by (nonlinear_arith);
        }
        i = i + 1;
    }
    proof {
        assert(es.take(entries.len() as int) =~= es);
    }
    let mut lines: Vec<String> = Vec::new();
    proof {
        reveal_strlit("total ");
    }
    let mut first = String::new();
    first.append("total ");
    let count_str = to_decimal(total / 2);
    first.append(count_str.as_str());
    proof {
        assert(first@ =~= total_line_of(es));
    }
    lines.push(first);
    let mut i2: usize = 0;
    while i2 < entries.len()
        invariant
            i2 <= entries.len(),
            lines@.len() == i2 + 1,
            lines.deep_view()[0] == total_line_of(es),
            forall|q: int|
                0 <= q < i2 ==> entry_line_ok(#[trigger] lines.deep_view()[q + 1], es[q]),
        decreases entries.len() - i2,
    {
        let e = &entries[i2];
        let line = match &e.meta {
            Some(m) => long_entry_line(&e.name, m),
            None => placeholder_line(&e.name),
        };
        let ghost pre = lines.deep_view();
        let ghost linev = line@;
        lines.push(line);
        proof {
            assert forall|k: int| 0 <= k < lines.deep_view().len() implies #[trigger] lines.deep_view()[k]
                == (if k < pre.len() {
                pre[k]
            } else {
                linev
            }) by {
                if k < pre.len() {
                    assert(lines.deep_view()[k] == pre[k]);
                } else {
                    assert(lines.deep_view()[k] == linev);
                }
            }
            assert(entry_line_ok(lines.deep_view()[i2 + 1], es[i2 as int]));
        }
        i2 = i2 + 1;
    }
    lines
}

} // verus!
