//! Why a name that is added to a directory leaves the entries listed
//! before as they were, and adds exactly one, which is then found under
//! the name.

use vstd::prelude::*;
use crate::text::{lowercase_of, uppercase_of};
use crate::vfs::fat32::dir::{
    dir_entries, entry_at, entry_slots, free_scan, is_listed, lemma_short_of, lfn_of, overlay,
    scan_dir, short_of, slot, slot_free, slots_grown, slots_offset, DirEntryView,
};
use crate::vfs::fat32::entry::{
    short_name_text, ShortDirEntry, ATTR_LFN, ATTR_VOLUME_ID, DELETED_MARKER, LFN_LAST_ENTRY,
};
use crate::vfs::fat32::lfn::{is_lfn_run, LfnEntry};
use crate::vfs::fat32::listing::{
    all_storable, gathered, lemma_added_name_is_listed, lemma_added_short_name_is_listed,
    lemma_assembled_run, lemma_free_scan_aligned, lemma_lfn_decodes, lemma_scan_keeps,
    lemma_sequence_bytes, lemma_short_name_is_listed, listable, lists_entry, lists_name,
    name_written, no_end_before, slots_of, whole_run,
};
use crate::vfs::fat32::name::{checksum_of, needs_lfn_spec, short_name_bytes};
use crate::vfs::fat32::ops::{lookup_in, match_index};

verus! {

/// What a listing shows of each entry: its name and the 32 bytes of its
/// short entry.
pub open spec fn shown(entries: Seq<DirEntryView>) -> Seq<(Seq<char>, Seq<u8>)> {
    Seq::new(entries.len(), |i: int| (entries[i].name, entries[i].short.bytes()))
}

/// The first byte of slot `k` of a directory.
pub open spec fn head(data: Seq<u8>, k: int) -> u8 {
    data[32 * k]
}

/// Whether a directory ends once: every slot after a slot that ends the
/// directory begins with a zero byte too.
pub open spec fn ends_once(data: Seq<u8>) -> bool {
    forall|i: int, j: int|
        0 <= i <= j && 32 * j + 32 <= data.len() && #[trigger] head(data, i) == 0 ==> #[trigger] head(
            data,
            j,
        ) == 0
}

/// Whether `after` lists what `before` lists, in the same order, and one
/// entry more: the name `name` with the short entry stored as `short`,
/// whose long-name entries, if it has any, are a whole run.
pub open spec fn one_more(
    before: Seq<DirEntryView>,
    after: Seq<DirEntryView>,
    name: Seq<char>,
    short: Seq<u8>,
) -> bool {
    exists|m: int|
        0 <= m <= before.len() && shown(after) == #[trigger] shown(before).insert(m, (name, short))
            && whole_run(after[m].lfn)
}

/// Whether a name added to the directory bytes `data` is one entry more
/// in its listing: the directory ended once; the characters of the name
/// can be stored, and it has 1 to 255 of them; and, for a name that is
/// stored without long-name entries, no long-name entry in use stands
/// right before the place of the new entry, where the new entry would
/// take it for one of its own.
pub open spec fn addable(data: Seq<u8>, name: Seq<char>) -> bool {
    &&& ends_once(data)
    &&& all_storable(name)
    &&& 0 < name.len() <= 255
    &&& needs_lfn_spec(name) || gathered(data, slots_offset(data, slots_of(name)) / 32).len() == 0
}

/// Whether the slots from `k` up to `k1` all carry the deleted mark.
pub open spec fn all_deleted(data: Seq<u8>, k: int, k1: int) -> bool {
    forall|j: int| k <= j < k1 ==> #[trigger] head(data, j) == DELETED_MARKER
}

/// Whether `now` is the directory `was` with the entry of `name`, made of
/// `lfns` and `short`, written at slot `k0`: the slots before it are
/// kept and none of them ends the directory; the slots taken were free;
/// what follows them is kept, or is zero where the directory has grown;
/// a name without long-name entries is shown by its short name, and no
/// long-name entry in use stands right before it; and the directory
/// ended once.
pub open spec fn placed(
    was: Seq<u8>,
    now: Seq<u8>,
    k0: int,
    lfns: Seq<LfnEntry>,
    short: ShortDirEntry,
    name: Seq<char>,
) -> bool {
    let k1 = k0 + lfns.len() + 1;
    &&& 0 <= k0
    &&& 32 * k0 <= was.len() <= now.len()
    &&& 32 * k1 <= now.len()
    &&& was.len() % 32 == 0
    &&& forall|x: int| 0 <= x < 32 * k0 ==> now[x] == was[x]
    &&& forall|j: int| 0 <= j < k0 ==> #[trigger] head(was, j) != 0
    &&& ends_once(was)
    &&& now == overlay(now, 32 * k0, entry_slots(lfns, short))
    &&& short.attr != ATTR_LFN
    &&& short.attr & ATTR_VOLUME_ID == 0
    &&& is_listed(short)
    &&& short.name@[0] != 0
    &&& short.name@[0] != DELETED_MARKER
    &&& if lfns.len() > 0 {
        &&& is_lfn_run(lfns, name, checksum_of(short.name@))
        &&& all_storable(name)
        &&& 0 < name.len() <= 255
    } else {
        &&& name == short_name_text(short.name@)
        &&& gathered(was, k0).len() == 0
    }
    &&& forall|j: int| k0 <= j < k1 && 32 * j + 32 <= was.len() ==> #[trigger] slot_free(was, j)
    &&& if was.len() == now.len() {
        forall|x: int| 32 * k1 <= x < was.len() ==> now[x] == was[x]
    } else {
        &&& 32 * k1 > was.len()
        &&& forall|x: int| 32 * k1 <= x < now.len() ==> now[x] == 0
    }
}

/// What is shown of entries and one more is what is shown of the
/// entries, and then what is shown of that one.
proof fn lemma_shown_push(acc: Seq<DirEntryView>, e: DirEntryView)
    ensures
        shown(acc.push(e)) == shown(acc).push((e.name, e.short.bytes())),
{
    assert(shown(acc.push(e)) =~= shown(acc).push((e.name, e.short.bytes())));
}

/// Inserting among the items of a sequence and adding one at its end
/// can be done in either order.
proof fn lemma_insert_push<A>(s: Seq<A>, m: int, x: A, y: A)
    requires
        0 <= m <= s.len(),
    ensures
        s.push(y).insert(m, x) == s.insert(m, x).push(y),
{
    assert(s.push(y).insert(m, x) =~= s.insert(m, x).push(y));
}

/// Two directories that agree from slot `k` on list the same from there:
/// where one has an entry more among what was found before, it has that
/// entry more in the end.
proof fn lemma_rest_kept(
    was: Seq<u8>,
    now: Seq<u8>,
    k: int,
    parts: Seq<LfnEntry>,
    s1: int,
    s2: int,
    a1: Seq<DirEntryView>,
    a2: Seq<DirEntryView>,
    m: int,
    x: (Seq<char>, Seq<u8>),
)
    requires
        0 <= k,
        was.len() == now.len(),
        forall|i: int| 32 * k <= i < was.len() ==> now[i] == was[i],
        0 <= m <= a1.len(),
        shown(a2) == shown(a1).insert(m, x),
    ensures
        shown(scan_dir(now, k, parts, s2, a2)) == shown(scan_dir(was, k, parts, s1, a1)).insert(
            m,
            x,
        ),
    decreases was.len() - 32 * k,
{
    if 32 * k + 32 <= was.len() {
        let e = slot(was, k);
        assert(slot(now, k) =~= e);
        let none = Seq::<LfnEntry>::empty();
        if e[0] == 0 {
        } else if e[0] == DELETED_MARKER {
            lemma_rest_kept(was, now, k + 1, none, s1, s2, a1, a2, m, x);
        } else if e[11] == ATTR_LFN {
            let lfn = lfn_of(e);
            if lfn.seq & LFN_LAST_ENTRY != 0 {
                lemma_rest_kept(was, now, k + 1, seq![lfn], 32 * k, 32 * k, a1, a2, m, x);
            } else {
                lemma_rest_kept(was, now, k + 1, parts.push(lfn), s1, s2, a1, a2, m, x);
            }
        } else {
            let short = short_of(e);
            if short.attr & ATTR_VOLUME_ID != 0 {
                lemma_rest_kept(was, now, k + 1, none, s1, s2, a1, a2, m, x);
            } else if is_listed(short) {
                let e1 = entry_at(parts, s1, k, short);
                let e2 = entry_at(parts, s2, k, short);
                lemma_shown_push(a1, e1);
                lemma_shown_push(a2, e2);
                lemma_insert_push(shown(a1), m, x, (e1.name, e1.short.bytes()));
                lemma_rest_kept(was, now, k + 1, none, s1, s2, a1.push(e1), a2.push(e2), m, x);
            } else {
                lemma_rest_kept(was, now, k + 1, none, s1, s2, a1, a2, m, x);
            }
        }
    }
}

/// Over a row of free slots the scan finds nothing: it goes on behind the
/// row when every slot of it is deleted, and ends in it otherwise.
proof fn lemma_free_row(
    data: Seq<u8>,
    k: int,
    k1: int,
    parts: Seq<LfnEntry>,
    start: int,
    acc: Seq<DirEntryView>,
)
    requires
        0 <= k < k1,
        32 * k1 <= data.len(),
        forall|j: int| k <= j < k1 ==> #[trigger] slot_free(data, j),
    ensures
        all_deleted(data, k, k1) ==> scan_dir(data, k, parts, start, acc) == scan_dir(
            data,
            k1,
            Seq::empty(),
            start,
            acc,
        ),
        !all_deleted(data, k, k1) ==> scan_dir(data, k, parts, start, acc) == acc,
    decreases k1 - k,
{
    let e = slot(data, k);
    assert(e[0] == head(data, k));
    assert(slot_free(data, k));
    if e[0] == 0 {
        assert(!all_deleted(data, k, k1));
    } else {
        if k + 1 < k1 {
            lemma_free_row(data, k + 1, k1, Seq::empty(), start, acc);
            if all_deleted(data, k + 1, k1) {
                assert(all_deleted(data, k, k1));
            } else {
                assert(!all_deleted(data, k, k1));
            }
        } else {
            assert(all_deleted(data, k, k1));
        }
    }
}

/// From the slot of stored entry number `j` of a written name on, with
/// the entries before it gathered, the scan finds the name next and goes
/// on behind its slots. The result is the entry found and the offset the
/// scan carries on with.
proof fn lemma_scan_passes(
    data: Seq<u8>,
    offset: int,
    lfns: Seq<LfnEntry>,
    short: ShortDirEntry,
    name: Seq<char>,
    j: int,
    parts: Seq<LfnEntry>,
    start: int,
    acc: Seq<DirEntryView>,
) -> (r: (DirEntryView, int))
    requires
        name_written(data, offset, lfns, short, name),
        lfns.len() > 0,
        0 <= j <= lfns.len(),
        j > 0 ==> parts == lfns.subrange(0, j) && start == offset,
    ensures
        scan_dir(data, offset / 32 + j, parts, start, acc) == scan_dir(
            data,
            offset / 32 + lfns.len() + 1,
            Seq::empty(),
            r.1,
            acc.push(r.0),
        ),
        r.0.name == name,
        r.0.short == short,
        r.0.lfn == lfns,
    decreases lfns.len() - j,
{
    let k0 = offset / 32;
    let k = k0 + j;
    let count = lfns.len() as int;
    let slots = entry_slots(lfns, short);
    let e = slot(data, k);
    lemma_assembled_run(lfns, name, checksum_of(short.name@));
    assert(32 * k + 32 <= data.len());
    assert forall|x: int| 0 <= x < 32 implies e[x] == slots[32 * j + x] by {
        assert(e[x] == data[32 * k + x]);
        assert(data[32 * k + x] == overlay(data, offset, slots)[32 * k + x]);
    }
    if j < count {
        let lfn = lfns[j];
        assert(e =~= lfn.bytes()) by {
            assert forall|x: int| 0 <= x < 32 implies e[x] == lfn.bytes()[x] by {
                assert((32 * j + x) / 32 == j);
                assert((32 * j + x) % 32 == x);
            }
        }
        lemma_lfn_decodes(lfn);
        lemma_sequence_bytes(lfns, name, checksum_of(short.name@), j);
        if j == 0 {
            assert(seq![lfn] =~= lfns.subrange(0, 1));
            lemma_scan_passes(data, offset, lfns, short, name, 1, seq![lfn], 32 * k, acc)
        } else {
            assert(parts.push(lfn) =~= lfns.subrange(0, j + 1));
            lemma_scan_passes(data, offset, lfns, short, name, j + 1, parts.push(lfn), start, acc)
        }
    } else {
        assert(e =~= short.bytes()) by {
            assert forall|x: int| 0 <= x < 32 implies e[x] == short.bytes()[x] by {}
        }
        short.lemma_decode_encoded();
        lemma_short_of(short, e);
        assert(e[0] == short.name@[0]);
        assert(e[11] == short.attr);
        assert(parts =~= lfns);
        (entry_at(parts, start, k, short), start)
    }
}

/// What the scan finds at the place of the new entry: in the directory as
/// it was, nothing more up to the free slots; in the directory as it is
/// now, the new entry; and behind the slots the same in both.
proof fn lemma_at_place(
    was: Seq<u8>,
    now: Seq<u8>,
    k0: int,
    lfns: Seq<LfnEntry>,
    short: ShortDirEntry,
    name: Seq<char>,
    parts: Seq<LfnEntry>,
    start: int,
    acc: Seq<DirEntryView>,
)
    requires
        placed(was, now, k0, lfns, short, name),
        lfns.len() == 0 ==> parts == gathered(was, k0),
    ensures
        acc.len() <= scan_dir(was, k0, parts, start, acc).len(),
        shown(scan_dir(now, k0, parts, start, acc)) == shown(
            scan_dir(was, k0, parts, start, acc),
        ).insert(acc.len() as int, (name, short.bytes())),
        whole_run(scan_dir(now, k0, parts, start, acc)[acc.len() as int].lfn),
{
    let none = Seq::<LfnEntry>::empty();
    let k1 = k0 + lfns.len() + 1;
    let x = (name, short.bytes());
    let m = acc.len() as int;
    let (found, s2) = if lfns.len() > 0 {
        assert((32 * k0) / 32 == k0);
        assert(name_written(now, 32 * k0, lfns, short, name));
        lemma_scan_passes(now, 32 * k0, lfns, short, name, 0, parts, start, acc)
    } else {
        assert((32 * k0) / 32 == k0);
        let e = slot(now, k0);
        assert(e =~= short.bytes()) by {
            assert forall|i: int| 0 <= i < 32 implies e[i] == short.bytes()[i] by {
                assert(e[i] == now[32 * k0 + i]);
                assert(now[32 * k0 + i] == overlay(now, 32 * k0, entry_slots(lfns, short))[32 * k0
                    + i]);
            }
        }
        short.lemma_decode_encoded();
        lemma_short_of(short, e);
        assert(e[0] == short.name@[0] && e[11] == short.attr) by {
            assert(short.name@ == e.subrange(0, 11));
            assert(e.subrange(0, 11)[0] == e[0]);
        }
        (entry_at(parts, start, k0, short), start)
    };
    let a2 = acc.push(found);
    let new = scan_dir(now, k0, parts, start, acc);
    let old = scan_dir(was, k0, parts, start, acc);
    assert(new == scan_dir(now, k1, none, s2, a2));
    lemma_scan_keeps(now, k1, none, s2, a2);
    assert(new[m] == a2[m]);
    assert(whole_run(found.lfn)) by {
        if lfns.len() > 0 {
            lemma_sequence_bytes(lfns, name, checksum_of(short.name@), 0);
        }
    }
    lemma_shown_push(acc, found);
    assert(shown(a2) =~= shown(acc).insert(m, x));
    lemma_scan_keeps(was, k0, parts, start, acc);
    if was.len() == now.len() {
        lemma_free_row(was, k0, k1, parts, start, acc);
        if all_deleted(was, k0, k1) {
            lemma_rest_kept(was, now, k1, none, start, s2, acc, a2, m, x);
        } else {
            let j = choose|j: int| k0 <= j < k1 && #[trigger] head(was, j) != DELETED_MARKER;
            assert(slot_free(was, j));
            assert(head(was, j) == 0);
            if 32 * k1 + 32 <= now.len() {
                assert(head(was, k1) == 0);
                assert(slot(now, k1)[0] == now[32 * k1]);
            }
            assert(new == a2);
        }
    } else {
        if 32 * k0 + 32 <= was.len() {
            let end = was.len() as int / 32;
            lemma_free_row(was, k0, end, parts, start, acc);
        }
        assert(old == acc);
        if 32 * k1 + 32 <= now.len() {
            assert(slot(now, k1)[0] == now[32 * k1]);
        }
        assert(new == a2);
    }
}

/// From any slot up to the place of the new entry, the directory as it
/// is now lists what it listed before and the new entry.
proof fn lemma_up_to_place(
    was: Seq<u8>,
    now: Seq<u8>,
    k0: int,
    lfns: Seq<LfnEntry>,
    short: ShortDirEntry,
    name: Seq<char>,
    k: int,
    parts: Seq<LfnEntry>,
    start: int,
    acc: Seq<DirEntryView>,
) -> (m: int)
    requires
        placed(was, now, k0, lfns, short, name),
        0 <= k <= k0,
        parts == gathered(was, k),
    ensures
        0 <= m <= scan_dir(was, k, parts, start, acc).len(),
        shown(scan_dir(now, k, parts, start, acc)) == shown(
            scan_dir(was, k, parts, start, acc),
        ).insert(m, (name, short.bytes())),
        whole_run(scan_dir(now, k, parts, start, acc)[m].lfn),
    decreases k0 - k,
{
    let none = Seq::<LfnEntry>::empty();
    if k == k0 {
        lemma_at_place(was, now, k0, lfns, short, name, parts, start, acc);
        acc.len() as int
    } else {
        let e = slot(was, k);
        assert(32 * k + 32 <= was.len());
        assert(slot(now, k) =~= e);
        assert(e[0] == head(was, k));
        assert(gathered(was, k + 1) == if e[0] == DELETED_MARKER || e[11] != ATTR_LFN {
            none
        } else if lfn_of(e).seq & LFN_LAST_ENTRY != 0 {
            seq![lfn_of(e)]
        } else {
            gathered(was, k).push(lfn_of(e))
        });
        if e[0] == DELETED_MARKER {
            lemma_up_to_place(was, now, k0, lfns, short, name, k + 1, none, start, acc)
        } else if e[11] == ATTR_LFN {
            let lfn = lfn_of(e);
            if lfn.seq & LFN_LAST_ENTRY != 0 {
                lemma_up_to_place(was, now, k0, lfns, short, name, k + 1, seq![lfn], 32 * k, acc)
            } else {
                lemma_up_to_place(
                    was,
                    now,
                    k0,
                    lfns,
                    short,
                    name,
                    k + 1,
                    parts.push(lfn),
                    start,
                    acc,
                )
            }
        } else {
            let s = short_of(e);
            if s.attr & ATTR_VOLUME_ID != 0 {
                lemma_up_to_place(was, now, k0, lfns, short, name, k + 1, none, start, acc)
            } else if is_listed(s) {
                let next = acc.push(entry_at(parts, start, k, s));
                lemma_up_to_place(was, now, k0, lfns, short, name, k + 1, none, start, next)
            } else {
                lemma_up_to_place(was, now, k0, lfns, short, name, k + 1, none, start, acc)
            }
        }
    }
}

/// A directory to which the entry of a name was written lists what it
/// listed before, in the same order, and exactly one entry more: the
/// name, with the short entry that was written.
pub proof fn lemma_placed_is_one_more(
    was: Seq<u8>,
    now: Seq<u8>,
    k0: int,
    lfns: Seq<LfnEntry>,
    short: ShortDirEntry,
    name: Seq<char>,
)
    requires
        placed(was, now, k0, lfns, short, name),
    ensures
        one_more(dir_entries(was), dir_entries(now), name, short.bytes()),
{
    let m = lemma_up_to_place(was, now, k0, lfns, short, name, 0, Seq::empty(), 0, Seq::empty());
    assert(shown(dir_entries(now)) == shown(dir_entries(was)).insert(m, (name, short.bytes())));
}

/// What the search for free slots finds: a row of the wanted length of
/// free slots inside the directory; or, when there is none, the row of
/// free slots that ends the directory, which is shorter.
pub proof fn lemma_free_scan_row(data: Seq<u8>, k: int, run: int, start: int, wanted: int)
    requires
        0 <= k,
        0 <= run < wanted,
        run <= k,
        data.len() % 32 == 0,
        32 * k <= data.len(),
        run > 0 ==> start == 32 * (k - run),
        forall|j: int| k - run <= j < k ==> #[trigger] slot_free(data, j),
    ensures
        ({
            let found = free_scan(data, k, run, start, wanted);
            &&& found.0 ==> {
                &&& found.1 % 32 == 0
                &&& 0 <= found.1
                &&& found.1 + 32 * wanted <= data.len()
                &&& forall|j: int|
                    found.1 <= 32 * j < found.1 + 32 * wanted ==> #[trigger] slot_free(data, j)
            }
            &&& !found.0 ==> found.2 < wanted
            &&& !found.0 && found.2 > 0 ==> {
                &&& found.1 % 32 == 0
                &&& 0 <= found.1
                &&& found.1 + 32 * found.2 == data.len()
                &&& forall|j: int|
                    found.1 <= 32 * j && 32 * j + 32 <= data.len() ==> #[trigger] slot_free(data, j)
            }
        }),
    decreases data.len() - 32 * k,
{
    let found = free_scan(data, k, run, start, wanted);
    if 32 * k + 32 > data.len() {
        assert(data.len() == 32 * k);
        assert(found == (false, start, run));
    } else if slot_free(data, k) {
        let begun = if run == 0 {
            32 * k
        } else {
            start
        };
        assert(begun == 32 * (k - run));
        if run + 1 < wanted {
            lemma_free_scan_row(data, k + 1, run + 1, begun, wanted);
        } else {
            assert(found == (true, begun, run + 1));
            assert forall|j: int| found.1 <= 32 * j < found.1 + 32 * wanted implies #[trigger] slot_free(
                data,
                j,
            ) by {
                assert(k - run <= j <= k);
            }
        }
    } else {
        lemma_free_scan_row(data, k + 1, 0, start, wanted);
    }
}

/// In a directory that ended once, the search for free slots does not
/// pass a slot that ends the directory: no such slot stands before the
/// row it is in, nor, where it finds no free slot at the end, anywhere.
pub proof fn lemma_free_scan_reached(data: Seq<u8>, k: int, run: int, start: int, wanted: int)
    requires
        0 <= run <= k,
        data.len() % 32 == 0,
        32 * k <= data.len(),
        run > 0 ==> start == 32 * (k - run),
        forall|j: int| 0 <= j < k - run ==> #[trigger] head(data, j) != 0,
        ends_once(data),
    ensures
        ({
            let found = free_scan(data, k, run, start, wanted);
            let place = if found.0 || found.2 > 0 {
                found.1
            } else {
                data.len() as int
            };
            forall|j: int| 0 <= 32 * j < place ==> #[trigger] head(data, j) != 0
        }),
    decreases data.len() - 32 * k,
{
    if 32 * k + 32 > data.len() {
        assert(data.len() == 32 * k);
    } else if slot_free(data, k) {
        let begun = if run == 0 {
            32 * k
        } else {
            start
        };
        if run + 1 < wanted {
            lemma_free_scan_reached(data, k + 1, run + 1, begun, wanted);
        }
    } else {
        assert forall|j: int| 0 <= j < k + 1 implies #[trigger] head(data, j) != 0 by {
            if head(data, j) == 0 {
                assert(head(data, k) == 0);
            }
        }
        lemma_free_scan_reached(data, k + 1, 0, start, wanted);
    }
}

/// In a directory that ended once, no slot before the place of a new
/// entry ends the directory.
pub proof fn lemma_place_is_reached(data: Seq<u8>, wanted: int)
    requires
        data.len() % 32 == 0,
        ends_once(data),
    ensures
        no_end_before(data, slots_offset(data, wanted)),
{
    lemma_free_scan_reached(data, 0, 0, 0, wanted);
    let place = slots_offset(data, wanted);
    assert forall|j: int| 0 <= j < place / 32 implies #[trigger] data[32 * j] != 0 by {
        assert(head(data, j) != 0);
    }
}

/// A name added to a directory that ended once, at the place that the
/// search for free slots gives, is one entry more in the listing, and
/// the entries listed before stay as they were.
pub proof fn lemma_added_is_one_more(
    was: Seq<u8>,
    now: Seq<u8>,
    cluster_bytes: int,
    lfns: Seq<LfnEntry>,
    short: ShortDirEntry,
    name: Seq<char>,
)
    requires
        was.len() % 32 == 0,
        cluster_bytes % 32 == 0,
        cluster_bytes > 0,
        now == overlay(
            slots_grown(was, slots_of(name), cluster_bytes),
            slots_offset(was, slots_of(name)),
            entry_slots(lfns, short),
        ),
        slots_offset(was, slots_of(name)) + 32 * slots_of(name) <= slots_grown(
            was,
            slots_of(name),
            cluster_bytes,
        ).len(),
        short.name@ == short_name_bytes(name, uppercase_of(name)),
        short.attr != ATTR_LFN,
        short.attr & ATTR_VOLUME_ID == 0,
        needs_lfn_spec(name) ==> is_lfn_run(lfns, name, checksum_of(short.name@)),
        !needs_lfn_spec(name) ==> lfns.len() == 0,
        addable(was, name),
    ensures
        one_more(dir_entries(was), dir_entries(now), name, short.bytes()),
{
    let wanted = slots_of(name);
    assert(wanted == lfns.len() + 1);
    lemma_place_is_reached(was, wanted);
    let offset = slots_offset(was, wanted);
    let grown = slots_grown(was, wanted, cluster_bytes);
    let found = free_scan(was, 0, 0, 0, wanted);
    lemma_free_scan_row(was, 0, 0, 0, wanted);
    lemma_short_name_is_listed(short, name, uppercase_of(name));
    assert(offset % 32 == 0 && 0 <= offset <= was.len());
    let k0 = offset / 32;
    let k1 = k0 + wanted;
    assert(32 * k0 == offset);
    assert forall|j: int| 0 <= j < k0 implies #[trigger] head(was, j) != 0 by {
        assert(was[32 * j] != 0);
    }
    assert(now =~= overlay(now, 32 * k0, entry_slots(lfns, short)));
    assert forall|j: int| k0 <= j < k1 && 32 * j + 32 <= was.len() implies #[trigger] slot_free(
        was,
        j,
    ) by {
        if found.0 || found.2 > 0 {
            assert(found.1 <= 32 * j);
        }
    }
    assert(placed(was, now, k0, lfns, short, name));
    lemma_placed_is_one_more(was, now, k0, lfns, short, name);
}

/// What the listing of a directory shows after the entry of a name was
/// written at the place that the search for free slots gives: where the
/// name is listable, an entry with that name and the short entry
/// written; where it is addable, what was listed before and that one
/// entry more.
pub proof fn lemma_entry_added(
    was: Seq<u8>,
    now: Seq<u8>,
    cluster_bytes: int,
    lfns: Seq<LfnEntry>,
    short: ShortDirEntry,
    name: Seq<char>,
)
    requires
        was.len() % 32 == 0,
        cluster_bytes % 32 == 0,
        cluster_bytes > 0,
        now == overlay(
            slots_grown(was, slots_of(name), cluster_bytes),
            slots_offset(was, slots_of(name)),
            entry_slots(lfns, short),
        ),
        slots_offset(was, slots_of(name)) + 32 * slots_of(name) <= slots_grown(
            was,
            slots_of(name),
            cluster_bytes,
        ).len(),
        short.name@ == short_name_bytes(name, uppercase_of(name)),
        short.attr != ATTR_LFN,
        short.attr & ATTR_VOLUME_ID == 0,
        needs_lfn_spec(name) ==> is_lfn_run(lfns, name, checksum_of(short.name@)),
        !needs_lfn_spec(name) ==> lfns.len() == 0,
    ensures
        listable(was, name) ==> lists_name(dir_entries(now), name) && lists_entry(
            dir_entries(now),
            name,
            short.attr,
            short.cluster_spec(),
            short.size,
        ),
        addable(was, name) ==> one_more(dir_entries(was), dir_entries(now), name, short.bytes()),
{
    let wanted = slots_of(name);
    let offset = slots_offset(was, wanted);
    if listable(was, name) {
        lemma_free_scan_aligned(was, 0, 0, 0, wanted);
        if needs_lfn_spec(name) {
            assert(now =~= overlay(now, offset, entry_slots(lfns, short)));
            lemma_added_name_is_listed(was, now, offset, lfns, short, name, uppercase_of(name));
        } else {
            assert(entry_slots(lfns, short) =~= short.bytes());
            assert(now =~= overlay(now, offset, short.bytes()));
            lemma_added_short_name_is_listed(was, now, offset, short, name, uppercase_of(name));
        }
    }
    if addable(was, name) {
        lemma_added_is_one_more(was, now, cluster_bytes, lfns, short, name);
    }
}

/// The position of the first entry with a name is that of an entry with
/// the name, and no entry before it has the name.
pub proof fn lemma_match_index(entries: Seq<DirEntryView>, target: Seq<char>)
    ensures
        0 <= match_index(entries, target) <= entries.len(),
        match_index(entries, target) < entries.len() ==> lowercase_of(
            entries[match_index(entries, target)].name,
        ) == target,
        forall|j: int|
            0 <= j < match_index(entries, target) ==> lowercase_of((#[trigger] entries[j]).name)
                != target,
    decreases entries.len(),
{
    if entries.len() > 0 && lowercase_of(entries[0].name) != target {
        let rest = entries.drop_first();
        lemma_match_index(rest, target);
        assert forall|j: int| 0 <= j < match_index(entries, target) implies lowercase_of(
            (#[trigger] entries[j]).name,
        ) != target by {
            if j > 0 {
                assert(rest[j - 1] == entries[j]);
            }
        }
    }
}

/// An entry with a name that no entry before it has is the first entry
/// with the name.
pub proof fn lemma_match_found(entries: Seq<DirEntryView>, target: Seq<char>, at: int)
    requires
        0 <= at < entries.len(),
        lowercase_of(entries[at].name) == target,
        forall|j: int| 0 <= j < at ==> lowercase_of((#[trigger] entries[j]).name) != target,
    ensures
        match_index(entries, target) == at,
    decreases entries.len(),
{
    if at > 0 {
        let rest = entries.drop_first();
        assert(lowercase_of(entries[0].name) != target);
        assert forall|j: int| 0 <= j < at - 1 implies lowercase_of((#[trigger] rest[j]).name)
            != target by {
            assert(rest[j] == entries[j + 1]);
        }
        lemma_match_found(rest, target, at - 1);
    }
}

/// A name that was not found in a directory is found after it was added
/// as one entry more: the entry found has the name, the short entry that
/// was stored, and long-name entries that are a whole run.
pub proof fn lemma_added_is_found(
    before: Seq<DirEntryView>,
    after: Seq<DirEntryView>,
    name: Seq<char>,
    short: Seq<u8>,
)
    requires
        one_more(before, after, name, short),
        lookup_in(before, lowercase_of(name)) is None,
    ensures
        lookup_in(after, lowercase_of(name)) is Some,
        (lookup_in(after, lowercase_of(name))->0).name == name,
        (lookup_in(after, lowercase_of(name))->0).short.bytes() == short,
        whole_run((lookup_in(after, lowercase_of(name))->0).lfn),
{
    let target = lowercase_of(name);
    let m = choose|m: int|
        0 <= m <= before.len() && shown(after) == #[trigger] shown(before).insert(m, (name, short))
            && whole_run(after[m].lfn);
    let all = shown(before).insert(m, (name, short));
    assert(after.len() == shown(after).len());
    assert(all.len() == before.len() + 1);
    lemma_match_index(before, target);
    assert(shown(after)[m] == all[m]);
    assert(all[m] == (name, short));
    assert forall|j: int| 0 <= j < m implies lowercase_of((#[trigger] after[j]).name)
        != target by {
        assert(shown(after)[j] == all[j]);
        assert(all[j] == shown(before)[j]);
        assert(before[j].name == after[j].name);
    }
    lemma_match_found(after, target, m);
}

} // verus!
