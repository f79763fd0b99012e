//! Choosing a sort order and sorting a listing by it, stably.

use vstd::prelude::*;
use vstd::seq_lib::*;

use crate::cli::Args;
use crate::text::{chars_of, lower_of, lowercase, trim_end_of, trimmed_end};
use crate::types::{not_later, EntryType, FileEntry, SortOrder};

verus! {

/// Lexicographic order on character sequences, comparing code points; a
/// prefix comes first.
pub open spec fn text_le(a: Seq<char>, b: Seq<char>) -> bool
    decreases a.len(),
{
    if a.len() == 0 {
        true
    } else if b.len() == 0 {
        false
    } else if a[0] != b[0] {
        a[0] < b[0]
    } else {
        text_le(a.drop_first(), b.drop_first())
    }
}

/// The name an entry is sorted by: trailing `/` removed, then lowercased.
pub open spec fn name_key(e: FileEntry) -> Seq<char> {
    lower_of(trim_end_of(e.name@, '/', '/'))
}

/// The orders that compare names.
pub open spec fn is_name_order(o: SortOrder) -> bool {
    o == SortOrder::AlphabeticalOrder || o == SortOrder::AlphabeticalReverse
}

/// `a` may stand before `b` in a listing sorted by `o`.
pub open spec fn entry_le(o: SortOrder, a: FileEntry, b: FileEntry) -> bool {
    match o {
        SortOrder::UpToDate => not_later(b.raw_modified, a.raw_modified),
        SortOrder::DownToDate => not_later(a.raw_modified, b.raw_modified),
        SortOrder::LargestSize => b.raw_size <= a.raw_size,
        SortOrder::SmallestSize => a.raw_size <= b.raw_size,
        SortOrder::AlphabeticalOrder => text_le(name_key(a), name_key(b)),
        SortOrder::AlphabeticalReverse => text_le(name_key(b), name_key(a)),
        SortOrder::DirFirst => a.e_type == EntryType::Dir || b.e_type == EntryType::File,
        SortOrder::DirLast => a.e_type == EntryType::File || b.e_type == EntryType::Dir,
    }
}

/// `x` placed into `r` after the last element that may precede it.
pub open spec fn insert_sorted(o: SortOrder, r: Seq<FileEntry>, x: FileEntry) -> Seq<FileEntry>
    decreases r.len(),
{
    if r.len() == 0 || entry_le(o, r.last(), x) {
        r.push(x)
    } else {
        insert_sorted(o, r.drop_last(), x).push(r.last())
    }
}

/// The stable sort of `s` by `o`: each element in turn is placed after every
/// earlier one that may precede it.
pub open spec fn sorted_by(o: SortOrder, s: Seq<FileEntry>) -> Seq<FileEntry>
    decreases s.len(),
{
    if s.len() == 0 {
        s
    } else {
        insert_sorted(o, sorted_by(o, s.drop_last()), s.last())
    }
}

/// Every element of `s` may precede every later one.
pub open spec fn is_sorted(o: SortOrder, s: Seq<FileEntry>) -> bool {
    forall|i: int, j: int| 0 <= i < j < s.len() ==> entry_le(o, #[trigger] s[i], #[trigger] s[j])
}

/// The sort names of a sequence of entries.
pub open spec fn name_keys(s: Seq<FileEntry>) -> Seq<Seq<char>> {
    s.map_values(|e: FileEntry| name_key(e))
}

proof fn lemma_text_le_refl(a: Seq<char>)
    ensures
        text_le(a, a),
    decreases a.len(),
{
    if a.len() > 0 {
        lemma_text_le_refl(a.drop_first());
    }
}

proof fn lemma_text_le_total(a: Seq<char>, b: Seq<char>)
    ensures
        text_le(a, b) || text_le(b, a),
    decreases a.len(),
{
    if a.len() > 0 && b.len() > 0 {
        if a[0] == b[0] {
            lemma_text_le_total(a.drop_first(), b.drop_first());
        }
    }
}

proof fn lemma_text_le_trans(a: Seq<char>, b: Seq<char>, c: Seq<char>)
    requires
        text_le(a, b),
        text_le(b, c),
    ensures
        text_le(a, c),
    decreases a.len(),
{
    if a.len() > 0 && b.len() > 0 && c.len() > 0 && a[0] == b[0] && b[0] == c[0] {
        lemma_text_le_trans(a.drop_first(), b.drop_first(), c.drop_first());
    }
}

proof fn lemma_text_le_antisym(a: Seq<char>, b: Seq<char>)
    requires
        text_le(a, b),
        text_le(b, a),
    ensures
        a == b,
    decreases a.len(),
{
    if a.len() > 0 && b.len() > 0 {
        if a[0] == b[0] {
            lemma_text_le_antisym(a.drop_first(), b.drop_first());
            assert(a =~= seq![a[0]] + a.drop_first());
            assert(b =~= seq![b[0]] + b.drop_first());
        }
    } else {
        assert(a =~= b);
    }
}

proof fn lemma_entry_le_total(o: SortOrder, a: FileEntry, b: FileEntry)
    ensures
        entry_le(o, a, b) || entry_le(o, b, a),
{
    lemma_text_le_total(name_key(a), name_key(b));
}

proof fn lemma_entry_le_trans(o: SortOrder, a: FileEntry, b: FileEntry, c: FileEntry)
    requires
        entry_le(o, a, b),
        entry_le(o, b, c),
    ensures
        entry_le(o, a, c),
{
    match o {
        SortOrder::AlphabeticalOrder => lemma_text_le_trans(name_key(a), name_key(b), name_key(c)),
        SortOrder::AlphabeticalReverse => lemma_text_le_trans(
            name_key(c),
            name_key(b),
            name_key(a),
        ),
        _ => {},
    }
}

/// `insert_sorted` puts `x` at the position found by scanning back from the
/// end past the elements that may not precede it.
proof fn lemma_insert_at(o: SortOrder, r: Seq<FileEntry>, x: FileEntry, j: int)
    requires
        0 <= j <= r.len(),
        j == 0 || entry_le(o, r[j - 1], x),
        forall|k: int| j <= k < r.len() ==> !entry_le(o, #[trigger] r[k], x),
    ensures
        insert_sorted(o, r, x) == r.insert(j, x),
    decreases r.len(),
{
    if r.len() == j {
        assert(r.push(x) =~= r.insert(j, x));
    } else {
        assert(!entry_le(o, r[r.len() - 1], x));
        lemma_insert_at(o, r.drop_last(), x, j);
        assert(r.drop_last().insert(j, x).push(r.last()) =~= r.insert(j, x));
    }
}

proof fn lemma_insert_is_insertion(o: SortOrder, r: Seq<FileEntry>, x: FileEntry)
    ensures
        exists|j: int| 0 <= j <= r.len() && insert_sorted(o, r, x) == r.insert(j, x),
    decreases r.len(),
{
    if r.len() == 0 || entry_le(o, r.last(), x) {
        assert(r.push(x) =~= r.insert(r.len() as int, x));
    } else {
        lemma_insert_is_insertion(o, r.drop_last(), x);
        let j = choose|j: int|
            0 <= j <= r.drop_last().len() && insert_sorted(o, r.drop_last(), x)
                == r.drop_last().insert(j, x);
        assert(r.drop_last().insert(j, x).push(r.last()) =~= r.insert(j, x));
    }
}

proof fn lemma_insert_keeps_sorted(o: SortOrder, r: Seq<FileEntry>, x: FileEntry)
    requires
        is_sorted(o, r),
    ensures
        is_sorted(o, insert_sorted(o, r, x)),
    decreases r.len(),
{
    if r.len() == 0 || entry_le(o, r.last(), x) {
        let s = r.push(x);
        assert forall|i: int, j: int| 0 <= i < j < s.len() implies entry_le(
            o,
            #[trigger] s[i],
            #[trigger] s[j],
        ) by {
            if j == r.len() && i < r.len() - 1 {
                lemma_entry_le_trans(o, r[i], r.last(), x);
            }
        }
    } else {
        let r0 = r.drop_last();
        let m = r.last();
        lemma_entry_le_total(o, m, x);
        assert(is_sorted(o, r0));
        lemma_insert_keeps_sorted(o, r0, x);
        lemma_insert_is_insertion(o, r0, x);
        let t = insert_sorted(o, r0, x);
        let s = t.push(m);
        assert forall|k: int| 0 <= k < t.len() implies entry_le(o, #[trigger] t[k], m) by {
            let j = choose|j: int| 0 <= j <= r0.len() && t == r0.insert(j, x);
            if k < j {
                assert(t[k] == r[k]);
            } else if k > j {
                assert(t[k] == r[k - 1]);
            }
        }
        assert forall|i: int, j: int| 0 <= i < j < s.len() implies entry_le(
            o,
            #[trigger] s[i],
            #[trigger] s[j],
        ) by {
            if j == t.len() {
                assert(s[i] == t[i]);
            } else {
                assert(s[i] == t[i] && s[j] == t[j]);
            }
        }
    }
}

/// The result of a sort is sorted.
proof fn lemma_sorted_by_is_sorted(o: SortOrder, s: Seq<FileEntry>)
    ensures
        is_sorted(o, sorted_by(o, s)),
    decreases s.len(),
{
    if s.len() > 0 {
        lemma_sorted_by_is_sorted(o, s.drop_last());
        lemma_insert_keeps_sorted(o, sorted_by(o, s.drop_last()), s.last());
    }
}

/// Sorting a sorted sequence leaves it as it is.
proof fn lemma_sorted_is_fixed(o: SortOrder, s: Seq<FileEntry>)
    requires
        is_sorted(o, s),
    ensures
        sorted_by(o, s) == s,
    decreases s.len(),
{
    if s.len() > 0 {
        let p = s.drop_last();
        assert(is_sorted(o, p));
        lemma_sorted_is_fixed(o, p);
        if p.len() > 0 {
            assert(entry_le(o, s[p.len() - 1], s[p.len() as int]));
        }
        assert(p.push(s.last()) =~= s);
    }
}

/// A sort keeps the elements: the result is a permutation of its input.
proof fn lemma_sorted_by_permutes(o: SortOrder, s: Seq<FileEntry>)
    ensures
        sorted_by(o, s).to_multiset() == s.to_multiset(),
        name_keys(sorted_by(o, s)).to_multiset() == name_keys(s).to_multiset(),
    decreases s.len(),
{
    broadcast use group_to_multiset_ensures;

    if s.len() > 0 {
        let p = s.drop_last();
        let x = s.last();
        let r = sorted_by(o, p);
        lemma_sorted_by_permutes(o, p);
        lemma_insert_is_insertion(o, r, x);
        let j = choose|j: int| 0 <= j <= r.len() && insert_sorted(o, r, x) == r.insert(j, x);
        assert(s =~= p.push(x));
        assert(name_keys(r.insert(j, x)) =~= name_keys(r).insert(j, name_key(x)));
        assert(name_keys(s) =~= name_keys(p).push(name_key(x)));
    }
}

/// Two sequences of names, each sorted from last to first, that hold the same
/// names are equal.
proof fn lemma_descending_unique(a: Seq<Seq<char>>, b: Seq<Seq<char>>)
    requires
        forall|i: int, j: int| 0 <= i < j < a.len() ==> text_le(#[trigger] a[j], #[trigger] a[i]),
        forall|i: int, j: int| 0 <= i < j < b.len() ==> text_le(#[trigger] b[j], #[trigger] b[i]),
        a.to_multiset() == b.to_multiset(),
    ensures
        a == b,
    decreases a.len(),
{
    broadcast use group_to_multiset_ensures;

    if a.len() == 0 || b.len() == 0 {
        assert(a.len() == b.len());
        assert(a =~= b);
    } else {
        assert(a.to_multiset().count(a[0]) > 0);
        assert(b.contains(a[0]));
        let k = choose|k: int| 0 <= k < b.len() && b[k] == a[0];
        assert(b.to_multiset().count(b[0]) > 0);
        assert(a.contains(b[0]));
        let m = choose|m: int| 0 <= m < a.len() && a[m] == b[0];
        lemma_text_le_refl(a[0]);
        lemma_text_le_refl(b[0]);
        if k > 0 {
            assert(text_le(b[k], b[0]));
        }
        if m > 0 {
            assert(text_le(a[m], a[0]));
        }
        lemma_text_le_antisym(a[0], b[0]);
        assert(a.remove(0) =~= a.drop_first());
        assert(b.remove(0) =~= b.drop_first());
        lemma_descending_unique(a.drop_first(), b.drop_first());
        assert forall|i: int| 0 <= i < a.len() implies a[i] == b[i] by {
            if i > 0 {
                assert(a[i] == a.drop_first()[i - 1]);
                assert(b[i] == b.drop_first()[i - 1]);
            }
        }
        assert(a =~= b);
    }
}

/// A sort keeps the number of entries.
pub proof fn lemma_sort_len(o: SortOrder, s: Seq<FileEntry>)
    ensures
        sorted_by(o, s).len() == s.len(),
{
    broadcast use group_to_multiset_ensures;

    lemma_sorted_by_permutes(o, s);
    assert(sorted_by(o, s).to_multiset().len() == s.to_multiset().len());
}

/// Sorting twice by the same order gives what sorting once gave.
pub proof fn lemma_sort_idempotent(o: SortOrder, files: Seq<FileEntry>)
    ensures
        sorted_by(o, sorted_by(o, files)) == sorted_by(o, files),
{
    lemma_sorted_by_is_sorted(o, files);
    lemma_sorted_is_fixed(o, sorted_by(o, files));
}

/// Sorting by name in reverse gives the names of the forward sort in reverse;
/// entries whose names fold to the same key keep their listing order in both.
pub proof fn lemma_name_orders_reverse(files: Seq<FileEntry>)
    ensures
        name_keys(sorted_by(SortOrder::AlphabeticalReverse, files)) == name_keys(
            sorted_by(SortOrder::AlphabeticalOrder, files),
        ).reverse(),
{
    let up = sorted_by(SortOrder::AlphabeticalOrder, files);
    let down = sorted_by(SortOrder::AlphabeticalReverse, files);
    lemma_sorted_by_is_sorted(SortOrder::AlphabeticalOrder, files);
    lemma_sorted_by_is_sorted(SortOrder::AlphabeticalReverse, files);
    lemma_sorted_by_permutes(SortOrder::AlphabeticalOrder, files);
    lemma_sorted_by_permutes(SortOrder::AlphabeticalReverse, files);
    let a = name_keys(down);
    let b = name_keys(up).reverse();
    assert forall|i: int, j: int| 0 <= i < j < a.len() implies text_le(
        #[trigger] a[j],
        #[trigger] a[i],
    ) by {
        assert(entry_le(SortOrder::AlphabeticalReverse, down[i], down[j]));
    }
    assert forall|i: int, j: int| 0 <= i < j < b.len() implies text_le(
        #[trigger] b[j],
        #[trigger] b[i],
    ) by {
        let n = up.len();
        assert(entry_le(SortOrder::AlphabeticalOrder, up[n - 1 - j], up[n - 1 - i]));
    }
    name_keys(up).lemma_reverse_to_multiset();
    lemma_descending_unique(a, b);
}

/// The order the sort flags select: the first one set, in declaration order.
pub open spec fn selected_order(args: Args) -> Option<SortOrder> {
    if args.up_to_date {
        Some(SortOrder::UpToDate)
    } else if args.down_to_date {
        Some(SortOrder::DownToDate)
    } else if args.largest_size {
        Some(SortOrder::LargestSize)
    } else if args.smallest_size {
        Some(SortOrder::SmallestSize)
    } else if args.alphabetical_order {
        Some(SortOrder::AlphabeticalOrder)
    } else if args.alphabetical_reverse {
        Some(SortOrder::AlphabeticalReverse)
    } else if args.dir_first {
        Some(SortOrder::DirFirst)
    } else if args.dir_last {
        Some(SortOrder::DirLast)
    } else {
        None
    }
}

/// The sort flags in declaration order.
pub open spec fn sort_flags(args: Args) -> Seq<bool> {
    seq![
        args.up_to_date,
        args.down_to_date,
        args.largest_size,
        args.smallest_size,
        args.alphabetical_order,
        args.alphabetical_reverse,
        args.dir_first,
        args.dir_last,
    ]
}

/// The sort order the options ask for, if any; when several flags are set
/// the first declared one wins.
pub fn get_sort_order(args: &Args) -> (r: Option<SortOrder>)
    ensures
        r == selected_order(*args),
{
    if args.up_to_date {
        Some(SortOrder::UpToDate)
    } else if args.down_to_date {
        Some(SortOrder::DownToDate)
    } else if args.largest_size {
        Some(SortOrder::LargestSize)
    } else if args.smallest_size {
        Some(SortOrder::SmallestSize)
    } else if args.alphabetical_order {
        Some(SortOrder::AlphabeticalOrder)
    } else if args.alphabetical_reverse {
        Some(SortOrder::AlphabeticalReverse)
    } else if args.dir_first {
        Some(SortOrder::DirFirst)
    } else if args.dir_last {
        Some(SortOrder::DirLast)
    } else {
        None
    }
}

/// Whether more than one sort flag is set, which deserves a warning.
pub fn has_conflicting_sort_flags(args: &Args) -> (r: bool)
    ensures
        r == (flags_set(sort_flags(*args)) > 1),
{
    let flags = [
        args.up_to_date,
        args.down_to_date,
        args.largest_size,
        args.smallest_size,
        args.alphabetical_order,
        args.alphabetical_reverse,
        args.dir_first,
        args.dir_last,
    ];
    assert(flags@ =~= sort_flags(*args));
    let mut count: usize = 0;
    let mut i: usize = 0;
    while i < 8
        invariant
            i <= 8,
            count <= i,
            flags@ == sort_flags(*args),
            count == flags_set(flags@.subrange(0, i as int)),
        decreases 8 - i,
    {
        assert(flags@.subrange(0, i + 1).drop_last() =~= flags@.subrange(0, i as int));
        if flags[i] {
            count = count + 1;
        }
        i = i + 1;
    }
    assert(flags@.subrange(0, 8) =~= flags@);
    count > 1
}

/// The number of `true` values in `s`.
pub open spec fn flags_set(s: Seq<bool>) -> nat
    decreases s.len(),
{
    if s.len() == 0 {
        0
    } else {
        flags_set(s.drop_last()) + if s.last() {
            1nat
        } else {
            0nat
        }
    }
}

/// Lexicographic comparison of two character vectors.
fn text_le_exec(a: &Vec<char>, b: &Vec<char>) -> (r: bool)
    ensures
        r == text_le(a@, b@),
{
    let mut i: usize = 0;
    assert(a@.skip(0) =~= a@);
    assert(b@.skip(0) =~= b@);
    while i < a.len() && i < b.len() && a[i] == b[i]
        invariant
            i <= a@.len(),
            i <= b@.len(),
            text_le(a@.skip(i as int), b@.skip(i as int)) == text_le(a@, b@),
        decreases a@.len() - i,
    {
        assert(a@.skip(i as int).drop_first() =~= a@.skip(i + 1));
        assert(b@.skip(i as int).drop_first() =~= b@.skip(i + 1));
        i = i + 1;
    }
    if i == a.len() {
        true
    } else if i == b.len() {
        false
    } else {
        a[i] < b[i]
    }
}

/// The sort name of an entry, as characters.
fn name_key_exec(e: &FileEntry) -> (r: Vec<char>)
    ensures
        r@ == name_key(*e),
{
    let trimmed = trimmed_end(e.name.as_str(), '/', '/');
    let folded = lowercase(trimmed.as_str());
    chars_of(folded.as_str())
}

fn precedes(o: SortOrder, a: &FileEntry, ka: &Vec<char>, b: &FileEntry, kb: &Vec<char>) -> (r: bool)
    requires
        is_name_order(o) ==> ka@ == name_key(*a) && kb@ == name_key(*b),
    ensures
        r == entry_le(o, *a, *b),
{
    match o {
        SortOrder::UpToDate => b.raw_modified.secs < a.raw_modified.secs || (b.raw_modified.secs
            == a.raw_modified.secs && b.raw_modified.nanos <= a.raw_modified.nanos),
        SortOrder::DownToDate => a.raw_modified.secs < b.raw_modified.secs || (a.raw_modified.secs
            == b.raw_modified.secs && a.raw_modified.nanos <= b.raw_modified.nanos),
        SortOrder::LargestSize => b.raw_size <= a.raw_size,
        SortOrder::SmallestSize => a.raw_size <= b.raw_size,
        SortOrder::AlphabeticalOrder => text_le_exec(ka, kb),
        SortOrder::AlphabeticalReverse => text_le_exec(kb, ka),
        SortOrder::DirFirst => match (a.e_type, b.e_type) {
            (EntryType::Dir, _) => true,
            (_, EntryType::File) => true,
            _ => false,
        },
        SortOrder::DirLast => match (a.e_type, b.e_type) {
            (EntryType::File, _) => true,
            (_, EntryType::Dir) => true,
            _ => false,
        },
    }
}

/// Sorts `files` by `sort_order`, stably: entries that compare equal keep
/// their order.
pub fn sort_files(files: &mut Vec<FileEntry>, sort_order: &SortOrder)
    ensures
        final(files)@ == sorted_by(*sort_order, old(files)@),
        is_sorted(*sort_order, final(files)@),
        final(files)@.to_multiset() == old(files)@.to_multiset(),
{
    let o = *sort_order;
    let ghost s = files@;
    let mut input: Vec<FileEntry> = Vec::new();
    std::mem::swap(files, &mut input);
    let n = input.len();
    let mut pending: Vec<FileEntry> = Vec::new();
    while input.len() > 0
        invariant
            n == s.len(),
            input@.len() + pending@.len() == n,
            input@ == s.subrange(0, input@.len() as int),
            forall|j: int| 0 <= j < pending@.len() ==> #[trigger] pending@[j] == s[n - 1 - j],
        decreases input@.len(),
    {
        let e = input.pop().unwrap();
        pending.push(e);
        assert(input@ =~= s.subrange(0, input@.len() as int));
    }
    let mut out: Vec<FileEntry> = Vec::new();
    let mut keys: Vec<Vec<char>> = Vec::new();
    let mut i: usize = 0;
    while pending.len() > 0
        invariant
            n == s.len(),
            i + pending@.len() == n,
            forall|j: int| 0 <= j < pending@.len() ==> #[trigger] pending@[j] == s[n - 1 - j],
            out@ == sorted_by(o, s.subrange(0, i as int)),
            keys@.len() == out@.len(),
            is_name_order(o) ==> forall|j: int|
                0 <= j < out@.len() ==> (#[trigger] keys@[j])@ == name_key(out@[j]),
        decreases pending@.len(),
    {
        let x = pending.pop().unwrap();
        assert(x == s[i as int]);
        let kx = if is_name_order_exec(o) {
            name_key_exec(&x)
        } else {
            Vec::new()
        };
        let mut j: usize = out.len();
        while j > 0 && !precedes(o, &out[j - 1], &keys[j - 1], &x, &kx)
            invariant
                j <= out@.len(),
                keys@.len() == out@.len(),
                is_name_order(o) ==> kx@ == name_key(x),
                is_name_order(o) ==> forall|m: int|
                    0 <= m < out@.len() ==> (#[trigger] keys@[m])@ == name_key(out@[m]),
                forall|k: int| j <= k < out@.len() ==> !entry_le(o, #[trigger] out@[k], x),
            decreases j,
        {
            j = j - 1;
        }
        proof {
            lemma_insert_at(o, out@, x, j as int);
            assert(s.subrange(0, i + 1).drop_last() =~= s.subrange(0, i as int));
        }
        out.insert(j, x);
        keys.insert(j, kx);
        i = i + 1;
    }
    proof {
        assert(s.subrange(0, n as int) =~= s);
        lemma_sorted_by_is_sorted(o, s);
        lemma_sorted_by_permutes(o, s);
    }
    *files = out;
}

fn is_name_order_exec(o: SortOrder) -> (r: bool)
    ensures
        r == is_name_order(o),
{
    match o {
        SortOrder::AlphabeticalOrder | SortOrder::AlphabeticalReverse => true,
        _ => false,
    }
}

} // verus!
