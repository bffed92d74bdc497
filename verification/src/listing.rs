//! The directory listing page: the entries of a directory in order, each as a
//! link, with a link to the parent directory.

use vstd::prelude::*;
use vstd::seq_lib::lemma_multiset_commutative;
use crate::text::{chars_of, push_char, same_text};
use crate::urlcodec::{url_encoded, encode_component};
use crate::paths::{std_path_parent, path_parent};

verus! {

broadcast use vstd::seq_lib::group_to_multiset_ensures;

/// One entry of a directory, as the listing needs it.
pub struct DirEntryInfo {
    /// The entry's file name, as text (bytes that are not UTF-8 replaced).
    pub name: String,
    /// The entry's file name as the bytes the file system holds.
    pub raw_name: Vec<u8>,
    /// Whether it is a directory (a link to one is not).
    pub is_dir: bool,
    /// Whether it is a regular file (a link to one is not).
    pub is_file: bool,
}

/// An entry as text and flags.
pub struct EntryView {
    pub name: Seq<char>,
    pub raw_name: Seq<u8>,
    pub is_dir: bool,
    pub is_file: bool,
}

impl View for DirEntryInfo {
    type V = EntryView;

    open spec fn view(&self) -> EntryView {
        EntryView { name: self.name@, raw_name: self.raw_name@, is_dir: self.is_dir, is_file: self.is_file }
    }
}

/// The views of a vector of entries.
pub open spec fn entries_view(entries: Seq<DirEntryInfo>) -> Seq<EntryView> {
    entries.map_values(|e: DirEntryInfo| e@)
}

/// Lexicographic order of file names by their bytes (a proper prefix comes
/// first), the order of file names on Unix.
pub open spec fn name_lt(a: Seq<u8>, b: Seq<u8>) -> bool
    decreases a.len(),
{
    if a.len() == 0 {
        b.len() > 0
    } else if b.len() == 0 {
        false
    } else if a[0] != b[0] {
        a[0] < b[0]
    } else {
        name_lt(a.drop_first(), b.drop_first())
    }
}

/// The order of the listing: by the name's bytes, or, with `dirs_first`,
/// everything that is not a regular file before the regular files and then
/// by the name's bytes.
pub open spec fn entry_lt(x: EntryView, y: EntryView, dirs_first: bool) -> bool {
    if dirs_first && x.is_file != y.is_file {
        !x.is_file
    } else {
        name_lt(x.raw_name, y.raw_name)
    }
}

/// Whether `s` is in listing order.
pub open spec fn is_sorted(s: Seq<EntryView>, dirs_first: bool) -> bool {
    forall|i: int, j: int| 0 <= i < j < s.len() ==> !entry_lt(#[trigger] s[j], #[trigger] s[i], dirs_first)
}

/// Whether `sorted` holds the entries of `entries`, each as often, in
/// listing order.
pub open spec fn is_listing_order(sorted: Seq<EntryView>, entries: Seq<EntryView>, dirs_first: bool) -> bool {
    &&& sorted.to_multiset() == entries.to_multiset()
    &&& is_sorted(sorted, dirs_first)
}

/// The name order is transitive.
pub proof fn lemma_name_lt_transitive(a: Seq<u8>, b: Seq<u8>, c: Seq<u8>)
    requires
        name_lt(a, b),
        name_lt(b, c),
    ensures
        name_lt(a, c),
    decreases a.len(),
{
    if a.len() > 0 && b.len() > 0 && c.len() > 0 && a[0] == b[0] && b[0] == c[0] {
        lemma_name_lt_transitive(a.drop_first(), b.drop_first(), c.drop_first());
    }
}

/// The name order is irreflexive.
pub proof fn lemma_name_lt_irreflexive(a: Seq<u8>)
    ensures
        !name_lt(a, a),
    decreases a.len(),
{
    if a.len() > 0 {
        lemma_name_lt_irreflexive(a.drop_first());
    }
}

/// Of two different names, one comes before the other.
pub proof fn lemma_name_lt_total(a: Seq<u8>, b: Seq<u8>)
    requires
        a != b,
    ensures
        name_lt(a, b) || name_lt(b, a),
    decreases a.len(),
{
    if a.len() > 0 && b.len() > 0 && a[0] == b[0] {
        if a.drop_first() == b.drop_first() {
            assert(a == seq![a[0]] + a.drop_first());
            assert(b == seq![b[0]] + b.drop_first());
        }
        lemma_name_lt_total(a.drop_first(), b.drop_first());
    } else if a.len() == 0 && b.len() == 0 {
        assert(a == b);
    }
}

/// A proper prefix comes before every name that it begins: the empty name
/// before any other, and `a` before `a` followed by anything.
pub proof fn lemma_prefix_comes_first(a: Seq<u8>, s: Seq<u8>)
    requires
        s.len() > 0,
    ensures
        name_lt(a, a + s),
        !name_lt(a + s, a),
        name_lt(Seq::empty(), s),
        !name_lt(s, Seq::empty()),
    decreases a.len(),
{
    if a.len() > 0 {
        lemma_prefix_comes_first(a.drop_first(), s);
        assert((a + s).drop_first() == a.drop_first() + s);
        assert((a + s)[0] == a[0]);
    } else {
        assert(a + s == s);
    }
}

/// Names that agree up to a byte where they differ are ordered by that byte.
pub proof fn lemma_first_difference_decides(p: Seq<u8>, x: u8, y: u8, r1: Seq<u8>, r2: Seq<u8>)
    requires
        x < y,
    ensures
        name_lt(p + seq![x] + r1, p + seq![y] + r2),
        !name_lt(p + seq![y] + r2, p + seq![x] + r1),
    decreases p.len(),
{
    let a = p + seq![x] + r1;
    let b = p + seq![y] + r2;
    if p.len() > 0 {
        lemma_first_difference_decides(p.drop_first(), x, y, r1, r2);
        assert(a.drop_first() == p.drop_first() + seq![x] + r1);
        assert(b.drop_first() == p.drop_first() + seq![y] + r2);
        assert(a[0] == p[0] && b[0] == p[0]);
    } else {
        assert(a[0] == x && b[0] == y);
    }
}

/// In a listing in plain name order, an entry whose name is a proper prefix
/// of another entry's name is listed before it (`test` before `tests`).
pub proof fn lemma_prefix_listed_first(s: Seq<EntryView>, i: int, j: int)
    requires
        is_sorted(s, false),
        0 <= i < s.len(),
        0 <= j < s.len(),
        s[i].raw_name.len() < s[j].raw_name.len(),
        s[i].raw_name.is_prefix_of(s[j].raw_name),
    ensures
        i < j,
{
    let a = s[i].raw_name;
    let b = s[j].raw_name;
    let rest = b.skip(a.len() as int);
    assert(b == a + rest);
    lemma_prefix_comes_first(a, rest);
    if j < i {
        assert(!entry_lt(s[i], s[j], false));
    }
}

/// In a listing with non-files first, every entry that is not a regular
/// file is listed before every regular file.
pub proof fn lemma_non_files_listed_first(s: Seq<EntryView>, i: int, j: int)
    requires
        is_sorted(s, true),
        0 <= i < s.len(),
        0 <= j < s.len(),
        !s[i].is_file,
        s[j].is_file,
    ensures
        i < j,
{
    if j < i {
        assert(!entry_lt(s[i], s[j], true));
    }
}

/// The listing order is transitive.
pub proof fn lemma_entry_lt_transitive(x: EntryView, y: EntryView, z: EntryView, dirs_first: bool)
    requires
        entry_lt(x, y, dirs_first),
        entry_lt(y, z, dirs_first),
    ensures
        entry_lt(x, z, dirs_first),
{
    if !(dirs_first && (x.is_file != y.is_file || y.is_file != z.is_file)) {
        lemma_name_lt_transitive(x.raw_name, y.raw_name, z.raw_name);
    }
}

/// The listing order is irreflexive.
pub proof fn lemma_entry_lt_irreflexive(x: EntryView, dirs_first: bool)
    ensures
        !entry_lt(x, x, dirs_first),
{
    lemma_name_lt_irreflexive(x.raw_name);
}

proof fn lemma_name_lt_skip(a: Seq<u8>, b: Seq<u8>, i: int)
    requires
        0 <= i <= a.len(),
        i <= b.len(),
        a.take(i) == b.take(i),
    ensures
        name_lt(a, b) == name_lt(a.skip(i), b.skip(i)),
    decreases i,
{
    if i > 0 {
        assert(a[0] == a.take(i)[0]);
        assert(b[0] == b.take(i)[0]);
        assert(a.drop_first().take(i - 1) == a.take(i).drop_first());
        assert(b.drop_first().take(i - 1) == b.take(i).drop_first());
        lemma_name_lt_skip(a.drop_first(), b.drop_first(), i - 1);
        assert(a.drop_first().skip(i - 1) == a.skip(i));
        assert(b.drop_first().skip(i - 1) == b.skip(i));
    } else {
        assert(a.skip(0) == a);
        assert(b.skip(0) == b);
    }
}

/// Whether no two entries of `s` share a name (as bytes), as in any one
/// directory.
pub open spec fn names_distinct(s: Seq<EntryView>) -> bool {
    forall|i: int, j: int| 0 <= i < s.len() && 0 <= j < s.len() && i != j ==> s[i].raw_name != s[j].raw_name
}

proof fn lemma_entry_lt_total(x: EntryView, y: EntryView, dirs_first: bool)
    requires
        x.raw_name != y.raw_name,
    ensures
        entry_lt(x, y, dirs_first) || entry_lt(y, x, dirs_first),
{
    lemma_name_lt_total(x.raw_name, y.raw_name);
}

proof fn lemma_sorted_tail(a: Seq<EntryView>, dirs_first: bool)
    requires
        a.len() > 0,
        is_sorted(a, dirs_first),
        names_distinct(a),
    ensures
        is_sorted(a.remove(0), dirs_first),
        names_distinct(a.remove(0)),
{
    let t = a.remove(0);
    assert(t == a.drop_first());
    assert forall|i: int, j: int| 0 <= i < j < t.len() implies !entry_lt(#[trigger] t[j], #[trigger] t[i], dirs_first) by {
        assert(t[i] == a[i + 1] && t[j] == a[j + 1]);
    }
    assert forall|i: int, j: int| 0 <= i < t.len() && 0 <= j < t.len() && i != j implies t[i].raw_name != t[j].raw_name by {
        assert(t[i] == a[i + 1] && t[j] == a[j + 1]);
    }
}

proof fn lemma_sorted_unique(a: Seq<EntryView>, b: Seq<EntryView>, dirs_first: bool)
    requires
        a.to_multiset() == b.to_multiset(),
        is_sorted(a, dirs_first),
        is_sorted(b, dirs_first),
        names_distinct(a),
        names_distinct(b),
    ensures
        a == b,
    decreases a.len(),
{
    assert(a.len() == a.to_multiset().len() && b.len() == b.to_multiset().len());
    if a.len() == 0 {
        assert(a =~= b);
    } else {
        let x = a[0];
        let y = b[0];
        assert(a.contains(x));
        assert(b.contains(y));
        assert(b.to_multiset().count(x) > 0);
        assert(a.to_multiset().count(y) > 0);
        assert(b.contains(x));
        assert(a.contains(y));
        if x != y {
            let k = choose|k: int| 0 <= k < b.len() && b[k] == x;
            let m = choose|m: int| 0 <= m < a.len() && a[m] == y;
            assert(k != 0 && m != 0);
            assert(!entry_lt(b[k], b[0], dirs_first));
            assert(!entry_lt(a[m], a[0], dirs_first));
            assert(a[0].raw_name != a[m].raw_name);
            lemma_entry_lt_total(x, y, dirs_first);
        }
        assert(a.remove(0).to_multiset() == a.to_multiset().remove(x));
        assert(b.remove(0).to_multiset() == b.to_multiset().remove(y));
        lemma_sorted_tail(a, dirs_first);
        lemma_sorted_tail(b, dirs_first);
        lemma_sorted_unique(a.remove(0), b.remove(0), dirs_first);
        assert(a == seq![x] + a.remove(0));
        assert(b == seq![y] + b.remove(0));
    }
}

proof fn lemma_order_keeps_names_distinct(sorted: Seq<EntryView>, entries: Seq<EntryView>)
    requires
        sorted.to_multiset() == entries.to_multiset(),
        names_distinct(entries),
    ensures
        names_distinct(sorted),
{
    assert(entries.no_duplicates());
    entries.lemma_multiset_has_no_duplicates();
    sorted.lemma_multiset_has_no_duplicates_conv();
    assert forall|i: int, j: int| 0 <= i < sorted.len() && 0 <= j < sorted.len() && i != j implies sorted[i].raw_name != sorted[j].raw_name by {
        assert(sorted[i] != sorted[j]);
        assert(sorted.contains(sorted[i]) && sorted.contains(sorted[j]));
        assert(entries.to_multiset().count(sorted[i]) > 0);
        assert(entries.to_multiset().count(sorted[j]) > 0);
        assert(entries.contains(sorted[i]) && entries.contains(sorted[j]));
        let p = choose|p: int| 0 <= p < entries.len() && entries[p] == sorted[i];
        let q = choose|q: int| 0 <= q < entries.len() && entries[q] == sorted[j];
        assert(p != q);
    }
}

/// The listing order of the entries of a directory, whose names differ, is
/// unique: the listing page of a directory is determined by its entries.
pub proof fn lemma_listing_order_unique(
    entries: Seq<EntryView>,
    a: Seq<EntryView>,
    b: Seq<EntryView>,
    dirs_first: bool,
)
    requires
        names_distinct(entries),
        is_listing_order(a, entries, dirs_first),
        is_listing_order(b, entries, dirs_first),
    ensures
        a == b,
{
    lemma_order_keeps_names_distinct(a, entries);
    lemma_order_keeps_names_distinct(b, entries);
    lemma_sorted_unique(a, b, dirs_first);
}

/// Whether the name `a` comes before the name `b`.
pub fn bytes_lt(a: &[u8], b: &[u8]) -> (r: bool)
    ensures
        r == name_lt(a@, b@),
{
    let mut i: usize = 0;
    while i < a.len() && i < b.len() && a[i] == b[i]
        invariant
            i <= a.len(),
            i <= b.len(),
            a@.take(i as int) == b@.take(i as int),
        decreases a.len() - i,
    {
        assert(a@.take(i + 1) == a@.take(i as int).push(a@[i as int]));
        assert(b@.take(i + 1) == b@.take(i as int).push(b@[i as int]));
        i = i + 1;
    }
    proof {
        lemma_name_lt_skip(a@, b@, i as int);
    }
    let ghost sa = a@.skip(i as int);
    let ghost sb = b@.skip(i as int);
    if i == a.len() {
        assert(sa.len() == 0);
        i < b.len()
    } else if i == b.len() {
        false
    } else {
        assert(sa[0] == a@[i as int] && sb[0] == b@[i as int]);
        a[i] < b[i]
    }
}

/// Whether the entry `x` comes before `y` in the listing.
fn entry_before(x: &DirEntryInfo, y: &DirEntryInfo, dirs_first: bool) -> (r: bool)
    ensures
        r == entry_lt(x@, y@, dirs_first),
{
    if dirs_first && x.is_file != y.is_file {
        !x.is_file
    } else {
        bytes_lt(x.raw_name.as_slice(), y.raw_name.as_slice())
    }
}

proof fn lemma_insert_multiset<A>(s: Seq<A>, p: int, x: A)
    requires
        0 <= p <= s.len(),
    ensures
        s.insert(p, x).to_multiset() == s.to_multiset().insert(x),
{
    let t = s.insert(p, x);
    assert(t.remove(p) == s);
    assert(t[p] == x);
    assert(t.remove(p).to_multiset() == t.to_multiset().remove(x));
    assert(t.contains(x));
    assert(t.to_multiset().count(x) > 0);
    assert(t.to_multiset() =~= s.to_multiset().insert(x));
}

/// `sorted` with `e` put before the first entry that does not come before
/// `e`: after the entries that come before it, and before those equal to it.
pub open spec fn insert_in_order(sorted: Seq<EntryView>, e: EntryView, dirs_first: bool) -> Seq<EntryView>
    decreases sorted.len(),
{
    if sorted.len() == 0 {
        seq![e]
    } else if !entry_lt(sorted[0], e, dirs_first) {
        seq![e] + sorted
    } else {
        seq![sorted[0]] + insert_in_order(sorted.drop_first(), e, dirs_first)
    }
}

/// The entries in listing order, sorted stably: entries that compare equal
/// keep the order they were given in.
pub open spec fn stable_sort(entries: Seq<EntryView>, dirs_first: bool) -> Seq<EntryView>
    decreases entries.len(),
{
    if entries.len() == 0 {
        Seq::empty()
    } else {
        insert_in_order(stable_sort(entries.drop_first(), dirs_first), entries[0], dirs_first)
    }
}

/// Of three entries, if the first comes before the third, it comes before
/// the second or the second comes before the third.
pub proof fn lemma_entry_lt_split(a: EntryView, b: EntryView, c: EntryView, dirs_first: bool)
    requires
        entry_lt(a, c, dirs_first),
    ensures
        entry_lt(a, b, dirs_first) || entry_lt(b, c, dirs_first),
{
    if !(dirs_first && (a.is_file != b.is_file || b.is_file != c.is_file)) {
        if b.raw_name == a.raw_name {
        } else {
            lemma_name_lt_total(a.raw_name, b.raw_name);
            if name_lt(b.raw_name, a.raw_name) {
                lemma_name_lt_transitive(b.raw_name, a.raw_name, c.raw_name);
            }
        }
    }
}

proof fn lemma_insert_at(sorted: Seq<EntryView>, e: EntryView, dirs_first: bool, p: int)
    requires
        0 <= p <= sorted.len(),
        forall|k: int| 0 <= k < p ==> entry_lt(#[trigger] sorted[k], e, dirs_first),
        p == sorted.len() || !entry_lt(sorted[p], e, dirs_first),
    ensures
        insert_in_order(sorted, e, dirs_first) == sorted.insert(p, e),
    decreases p,
{
    if p == 0 {
        if sorted.len() == 0 {
            assert(sorted.insert(0, e) == seq![e]);
        } else {
            assert(sorted.insert(0, e) == seq![e] + sorted);
        }
    } else {
        let t = sorted.drop_first();
        assert forall|k: int| 0 <= k < p - 1 implies entry_lt(#[trigger] t[k], e, dirs_first) by {
            assert(t[k] == sorted[k + 1]);
        }
        if p < sorted.len() {
            assert(t[p - 1] == sorted[p]);
        }
        lemma_insert_at(t, e, dirs_first, p - 1);
        assert(entry_lt(sorted[0], e, dirs_first));
        assert(sorted.insert(p, e) == seq![sorted[0]] + t.insert(p - 1, e));
    }
}

/// The entries in listing order: sorted by the bytes of their names, or
/// with everything but regular files first and each group sorted by name;
/// entries that compare equal keep their given order.
pub fn sort_entries(entries: Vec<DirEntryInfo>, dirs_first: bool) -> (sorted: Vec<DirEntryInfo>)
    ensures
        entries_view(sorted@) == stable_sort(entries_view(entries@), dirs_first),
        is_listing_order(entries_view(sorted@), entries_view(entries@), dirs_first),
{
    let ghost input = entries_view(entries@);
    let mut sorted: Vec<DirEntryInfo> = Vec::new();
    let mut rest = entries;
    // `rest` is consumed from the back into `sorted`.
    assert(input == rest@.map_values(|e: DirEntryInfo| e@));
    assert(input.skip(input.len() as int) == Seq::<EntryView>::empty());
    while rest.len() > 0
        invariant
            input.len() == entries@.len(),
            input == entries_view(entries@),
            rest@.len() <= input.len(),
            entries_view(rest@) == input.take(rest@.len() as int),
            entries_view(sorted@) == stable_sort(input.skip(rest@.len() as int), dirs_first),
            input.to_multiset() == entries_view(rest@).to_multiset().add(entries_view(sorted@).to_multiset()),
            is_sorted(entries_view(sorted@), dirs_first),
        decreases rest.len(),
    {
        let ghost before_rest = rest@;
        let ghost before_sorted = sorted@;
        let ghost r = rest@.len() as int;
        let e = rest.pop().unwrap();
        assert(entries_view(before_rest)[r - 1] == e@);
        assert(input[r - 1] == e@);
        let mut p: usize = 0;
        while p < sorted.len() && entry_before(&sorted[p], &e, dirs_first)
            invariant
                p <= sorted.len(),
                sorted@ == before_sorted,
                forall|k: int| 0 <= k < p ==> entry_lt(#[trigger] entries_view(sorted@)[k], e@, dirs_first),
            decreases sorted.len() - p,
        {
            p = p + 1;
        }
        let ghost sv = entries_view(sorted@);
        proof {
            lemma_insert_at(sv, e@, dirs_first, p as int);
            assert(input.skip(r - 1).drop_first() == input.skip(r));
            assert(input.skip(r - 1)[0] == e@);
        }
        sorted.insert(p, e);
        proof {
            let nv = entries_view(sorted@);
            assert(nv == sv.insert(p as int, e@));
            assert(nv == stable_sort(input.skip(r - 1), dirs_first));
            assert(entries_view(rest@) == input.take(r - 1));
            lemma_insert_multiset(sv, p as int, e@);
            assert(before_rest == rest@.push(e));
            assert(entries_view(before_rest) == entries_view(rest@).push(e@));
            assert(entries_view(before_rest).to_multiset() == entries_view(rest@).to_multiset().insert(e@));
            assert(input.to_multiset() =~= entries_view(rest@).to_multiset().add(nv.to_multiset()));
            assert forall|i: int, j: int| 0 <= i < j < nv.len() implies !entry_lt(#[trigger] nv[j], #[trigger] nv[i], dirs_first) by {
                if j < p {
                    assert(nv[i] == sv[i] && nv[j] == sv[j]);
                } else if j == p {
                    assert(nv[i] == sv[i]);
                    assert(entry_lt(sv[i], e@, dirs_first));
                    if entry_lt(e@, sv[i], dirs_first) {
                        lemma_entry_lt_transitive(sv[i], e@, sv[i], dirs_first);
                        lemma_entry_lt_irreflexive(sv[i], dirs_first);
                    }
                } else if i == p {
                    assert(nv[j] == sv[j - 1]);
                    assert(p < sv.len());
                    assert(!entry_lt(sv[p as int], e@, dirs_first));
                    if entry_lt(nv[j], e@, dirs_first) {
                        lemma_entry_lt_split(nv[j], sv[p as int], e@, dirs_first);
                        if j - 1 == p {
                            lemma_entry_lt_irreflexive(sv[p as int], dirs_first);
                        }
                    }
                } else if i < p {
                    assert(nv[i] == sv[i] && nv[j] == sv[j - 1]);
                } else {
                    assert(nv[i] == sv[i - 1] && nv[j] == sv[j - 1]);
                }
            }
        }
    }
    assert(input.skip(0) == input);
    assert(entries_view(rest@).to_multiset() =~= vstd::multiset::Multiset::empty());
    assert(input.to_multiset() =~= entries_view(sorted@).to_multiset());
    sorted
}


/// Whether `s` ends with `c`.
pub open spec fn ends_with_char(s: Seq<char>, c: char) -> bool {
    s.len() > 0 && s.last() == c
}

/// The link to an entry: the request's URL, a `/` unless it ends in one, the
/// percent-encoded name, and a final `/` for a directory.
pub open spec fn entry_href(url: Seq<char>, e: EntryView) -> Seq<char> {
    let base = if ends_with_char(url, '/') {
        url + url_encoded(e.name)
    } else {
        url + seq!['/'] + url_encoded(e.name)
    };
    if e.is_dir && !ends_with_char(base, '/') {
        base.push('/')
    } else {
        base
    }
}

/// The link to a directory ends in `/`, and its label does too.
pub proof fn lemma_directory_links_end_in_slash(url: Seq<char>, e: EntryView)
    requires
        e.is_dir,
    ensures
        ends_with_char(entry_href(url, e), '/'),
        ends_with_char(entry_label(e), '/'),
{
}

/// The label of an entry: its name, with a final `/` for a directory.
pub open spec fn entry_label(e: EntryView) -> Seq<char> {
    if e.is_dir { e.name.push('/') } else { e.name }
}

/// The list item of an entry.
pub open spec fn entry_item(url: Seq<char>, e: EntryView) -> Seq<char> {
    "<li data-path=\""@ + entry_href(url, e) + "\"><a href=\""@ + entry_href(url, e) + "\">"@
        + entry_label(e) + "</a></li>"@
}

/// The name of the server's own program, which listings leave out.
pub open spec fn hidden_name() -> Seq<char> {
    "ls_web"@
}

/// The list items of the entries, in their order, the hidden name left out.
pub open spec fn entry_items(url: Seq<char>, entries: Seq<EntryView>) -> Seq<char>
    decreases entries.len(),
{
    if entries.len() == 0 {
        Seq::empty()
    } else {
        let e = entries.last();
        entry_items(url, entries.drop_last()) + if e.name == hidden_name() {
            Seq::<char>::empty()
        } else {
            entry_item(url, e)
        }
    }
}

/// Where the `..` link leads: the parent of the request's URL as a path, or
/// `/` when that is empty or there is none.
pub open spec fn parent_link(url: Seq<char>) -> Seq<char> {
    match std_path_parent(url) {
        Some(p) => if p.len() == 0 { seq!['/'] } else { p },
        None => seq!['/'],
    }
}

/// The list item of the link to the parent directory.
pub open spec fn parent_item(url: Seq<char>) -> Seq<char> {
    "<li><a href=\""@ + parent_link(url) + "\">..</a></li>"@
}

/// All list items: the parent link unless the URL is `/`, then the entries.
pub open spec fn listing_items(url: Seq<char>, entries: Seq<EntryView>) -> Seq<char> {
    if url == seq!['/'] {
        entry_items(url, entries)
    } else {
        parent_item(url) + entry_items(url, entries)
    }
}

/// The list items of the entries, one for each entry but the hidden one, in
/// their order.
pub open spec fn item_list(url: Seq<char>, entries: Seq<EntryView>) -> Seq<Seq<char>>
    decreases entries.len(),
{
    if entries.len() == 0 {
        Seq::empty()
    } else {
        let e = entries.last();
        item_list(url, entries.drop_last()) + if e.name == hidden_name() {
            Seq::<Seq<char>>::empty()
        } else {
            seq![entry_item(url, e)]
        }
    }
}

/// The texts of `t` one after another.
pub open spec fn concat_texts(t: Seq<Seq<char>>) -> Seq<char>
    decreases t.len(),
{
    if t.len() == 0 {
        Seq::empty()
    } else {
        concat_texts(t.drop_last()) + t.last()
    }
}

/// The entries' part of a listing is its list items one after another.
pub proof fn lemma_entry_items_concat(url: Seq<char>, entries: Seq<EntryView>)
    ensures
        entry_items(url, entries) == concat_texts(item_list(url, entries)),
    decreases entries.len(),
{
    if entries.len() > 0 {
        lemma_entry_items_concat(url, entries.drop_last());
        let l = item_list(url, entries.drop_last());
        let e = entries.last();
        if e.name == hidden_name() {
            assert(l + Seq::<Seq<char>>::empty() == l);
            assert(entry_items(url, entries.drop_last()) + Seq::<char>::empty() == entry_items(url, entries.drop_last()));
        } else {
            let t = l + seq![entry_item(url, e)];
            assert(t.drop_last() == l);
            assert(t.last() == entry_item(url, e));
        }
    }
}

proof fn lemma_item_list_add(url: Seq<char>, a: Seq<EntryView>, b: Seq<EntryView>)
    ensures
        item_list(url, a + b) == item_list(url, a) + item_list(url, b),
    decreases b.len(),
{
    if b.len() == 0 {
        assert(a + b == a);
        assert(item_list(url, a) + Seq::<Seq<char>>::empty() == item_list(url, a));
    } else {
        assert((a + b).drop_last() == a + b.drop_last());
        assert((a + b).last() == b.last());
        lemma_item_list_add(url, a, b.drop_last());
        let x = if b.last().name == hidden_name() {
            Seq::<Seq<char>>::empty()
        } else {
            seq![entry_item(url, b.last())]
        };
        assert(item_list(url, a) + item_list(url, b.drop_last()) + x == item_list(url, a) + (item_list(url, b.drop_last()) + x));
    }
}

proof fn lemma_item_list_multiset(url: Seq<char>, s1: Seq<EntryView>, s2: Seq<EntryView>)
    requires
        s1.to_multiset() == s2.to_multiset(),
    ensures
        item_list(url, s1).to_multiset() == item_list(url, s2).to_multiset(),
    decreases s1.len(),
{
    assert(s1.len() == s1.to_multiset().len() && s2.len() == s2.to_multiset().len());
    if s1.len() == 0 {
        assert(s1 == Seq::<EntryView>::empty() && s2 == Seq::<EntryView>::empty());
    } else {
        let x = s1.last();
        let n = s1.len() - 1;
        assert(s1.contains(x));
        assert(s2.to_multiset().count(x) > 0);
        assert(s2.contains(x));
        let k = choose|k: int| 0 <= k < s2.len() && s2[k] == x;
        let r1 = s1.drop_last();
        let r2 = s2.remove(k);
        assert(s1.remove(n) == r1);
        assert(r1.to_multiset() == s1.to_multiset().remove(x));
        assert(r2.to_multiset() == s2.to_multiset().remove(x));
        lemma_item_list_multiset(url, r1, r2);
        let single = seq![x];
        assert(single.drop_last() == Seq::<EntryView>::empty());
        assert(single.last() == x);
        assert(item_list(url, single.drop_last()) == Seq::<Seq<char>>::empty());
        assert(item_list(url, single) == Seq::<Seq<char>>::empty() + if x.name == hidden_name() {
            Seq::<Seq<char>>::empty()
        } else {
            seq![entry_item(url, x)]
        });
        let front = s2.take(k);
        let back = s2.skip(k + 1);
        assert(s2 == front + single + back);
        assert(r2 == front + back);
        lemma_item_list_add(url, front + single, back);
        lemma_item_list_add(url, front, single);
        lemma_item_list_add(url, front, back);
        let xi = item_list(url, single);
        assert(item_list(url, s1) == item_list(url, r1) + xi);
        lemma_multiset_commutative(item_list(url, r1), xi);
        lemma_multiset_commutative(item_list(url, front) + xi, item_list(url, back));
        lemma_multiset_commutative(item_list(url, front), xi);
        lemma_multiset_commutative(item_list(url, front), item_list(url, back));
        assert(item_list(url, s2).to_multiset() =~= item_list(url, r2).to_multiset().add(xi.to_multiset()));
    }
}

/// With and without `--sort-dirs-first` the listing shows the same items,
/// in the two listing orders, and is the same page around them.
pub proof fn lemma_sort_flag_permutes_items(
    entries: Seq<EntryView>,
    dirs_first_order: Seq<EntryView>,
    name_order: Seq<EntryView>,
    dir_path: Seq<char>,
    url: Seq<char>,
)
    requires
        is_listing_order(dirs_first_order, entries, true),
        is_listing_order(name_order, entries, false),
    ensures
        item_list(url, dirs_first_order).to_multiset() == item_list(url, name_order).to_multiset(),
        listing_page(dir_path, url, dirs_first_order) == page_head() + dir_path + "</div>"@ + "<ul>"@
            + listing_items_of(url, item_list(url, dirs_first_order)) + page_tail(),
        listing_page(dir_path, url, name_order) == page_head() + dir_path + "</div>"@ + "<ul>"@
            + listing_items_of(url, item_list(url, name_order)) + page_tail(),
{
    lemma_item_list_multiset(url, dirs_first_order, name_order);
    lemma_entry_items_concat(url, dirs_first_order);
    lemma_entry_items_concat(url, name_order);
}

/// The list part of a page with the given entry items: the parent link unless
/// the URL is `/`, then the items.
pub open spec fn listing_items_of(url: Seq<char>, items: Seq<Seq<char>>) -> Seq<char> {
    if url == seq!['/'] {
        concat_texts(items)
    } else {
        parent_item(url) + concat_texts(items)
    }
}

/// The listing page of the directory `dir_path`, reached by `url`, with the
/// entries in the given order.
pub open spec fn listing_page(dir_path: Seq<char>, url: Seq<char>, entries: Seq<EntryView>) -> Seq<char> {
    page_head() + dir_path + "</div>"@ + "<ul>"@ + listing_items(url, entries) + page_tail()
}

/// The page up to the directory's path: the document head with its style sheet, the heading, and the opening of the path line.
pub open spec fn page_head() -> Seq<char> {
    "<!DOCTYPE html><html><head><meta charset=\"utf-8\"><title>Directory listing</title><style>"@
        + ":root {\n  --bg: #fff;\n  --fg: #0b101a;\n  --panel: rgba(255, 255, 255, 0.9);\n  --border: rgba(22, 24, 32, 0.75);\n  --muted: rgba(0, 0, 0, 0.55);\n  --link: #0066cc;\n  --link-hover: #004a99;\n  --shadow: rgba(0, 0, 0, 0.12);\n}\n"@
        + "body {\n  font-family: system-ui, -apple-system, BlinkMacSystemFont, Segoe UI, Roboto, Ubuntu, sans-serif;\n  margin: 2rem;\n  padding: 0;\n  background: var(--bg);\n  color: var(--fg);\n}\n"@
        + ".container {\n  max-width: 920px;\n  margin: 2.5rem auto;\n  padding: 1.75rem 1.75rem 2rem;\n  background: var(--panel);\n  border: 1px solid var(--border);\n  border-radius: 14px;\n  box-shadow: 0 18px 40px var(--shadow);\n}\n"@
        + "h1 {\n  margin: 0 0 0.35rem;\n  font-size: 1.7rem;\n  letter-spacing: -0.03em;\n}\n"@
        + ".path {\n  color: var(--muted);\n  margin-bottom: 1.1rem;\n  font-size: 0.92rem;\n}\n"@
        + "ul {\n  list-style: none;\n  margin: 0;\n  padding: 0;\n}\n"@
        + "li {\n  margin: 0.45rem 0;\n}\n"@
        + "li a {\n  display: block;\n  padding: 0.35rem 0.55rem;\n  border-radius: 8px;\n  transition: background 120ms ease-in-out;\n  color: var(--link);\n  text-decoration: none;\n  font-weight: 500;\n}\n"@
        + "li a:hover {\n  background: rgba(0, 0, 0, 0.04);\n  color: var(--link-hover);\n}\n"@
        + ".context-menu {\n  position: absolute;\n  display: none;\n  min-width: 200px;\n  padding: 0.25rem 0;\n  background: var(--panel);\n  border: 1px solid var(--border);\n  border-radius: 10px;\n  box-shadow: 0 12px 24px rgba(0, 0, 0, 0.18);\n  z-index: 1000;\n}\n"@
        + ".context-menu button {\n  width: 100%;\n  padding: 0.55rem 1rem;\n  border: none;\n  background: transparent;\n  color: var(--fg);\n  text-align: left;\n  cursor: pointer;\n  font-size: 0.95rem;\n}\n"@
        + ".context-menu button:hover {\n  background: rgba(0, 0, 0, 0.06);\n}\n"@
        + ".note {\n  margin-top: 1.8rem;\n  color: var(--muted);\n  font-size: 0.88rem;\n}\n"@
        + "</style></head><body><div class=\"container\"> "@
        + "<h1>Directory listing</h1>"@
        + "<div class=\"path\">"@
}

/// The page after the list of entries: the note, the context menu for archive downloads, and its script.
pub open spec fn page_tail() -> Seq<char> {
    "</ul>"@
        + "<div class=\"note\">Right-click an item to download the folder as an archive.</div>"@
        + "<div id=\"contextMenu\" class=\"context-menu\">"@
        + "<button data-format=\"zip\">Download ZIP</button>"@
        + "<button data-format=\"tar.gz\">Download tar.gz</button>"@
        + "<button data-format=\"7z\">Download 7z</button>"@
        + "</div>"@
        + "</div><script>"@
        + "(function() {"@
        + "  const menu = document.getElementById('contextMenu');"@
        + "  let currentPath = ''; "@
        + "  function hideMenu() { menu.style.display = 'none'; }"@
        + "  function showMenu(x, y) { menu.style.left = `${x}px`; menu.style.top = `${y}px`; menu.style.display = 'block'; }"@
        + "  document.addEventListener('click', () => hideMenu());"@
        + "  document.addEventListener('contextmenu', (event) => {"@
        + "    const target = event.target.closest('li[data-path]');"@
        + "    if (!target) return;"@
        + "    event.preventDefault();"@
        + "    currentPath = target.getAttribute('data-path') || ''; "@
        + "    showMenu(event.pageX, event.pageY);"@
        + "  });"@
        + "  menu.addEventListener('click', (event) => {"@
        + "    const btn = event.target.closest('button[data-format]');"@
        + "    if (!btn) return;"@
        + "    const format = btn.getAttribute('data-format');"@
        + "    if (!format) return;"@
        + "    const url = `/download?path=${encodeURIComponent(currentPath)}&format=${encodeURIComponent(format)}`;"@
        + "    window.location.href = url;"@
        + "  });"@
        + "})();"@
        + "</script></body></html>"@
}

/// The text of `page_head`.
fn page_head_string() -> (r: String)
    ensures
        r@ == page_head(),
{
    let mut r = "<!DOCTYPE html><html><head><meta charset=\"utf-8\"><title>Directory listing</title><style>".to_owned();
    r.append(":root {\n  --bg: #fff;\n  --fg: #0b101a;\n  --panel: rgba(255, 255, 255, 0.9);\n  --border: rgba(22, 24, 32, 0.75);\n  --muted: rgba(0, 0, 0, 0.55);\n  --link: #0066cc;\n  --link-hover: #004a99;\n  --shadow: rgba(0, 0, 0, 0.12);\n}\n");
    r.append("body {\n  font-family: system-ui, -apple-system, BlinkMacSystemFont, Segoe UI, Roboto, Ubuntu, sans-serif;\n  margin: 2rem;\n  padding: 0;\n  background: var(--bg);\n  color: var(--fg);\n}\n");
    r.append(".container {\n  max-width: 920px;\n  margin: 2.5rem auto;\n  padding: 1.75rem 1.75rem 2rem;\n  background: var(--panel);\n  border: 1px solid var(--border);\n  border-radius: 14px;\n  box-shadow: 0 18px 40px var(--shadow);\n}\n");
    r.append("h1 {\n  margin: 0 0 0.35rem;\n  font-size: 1.7rem;\n  letter-spacing: -0.03em;\n}\n");
    r.append(".path {\n  color: var(--muted);\n  margin-bottom: 1.1rem;\n  font-size: 0.92rem;\n}\n");
    r.append("ul {\n  list-style: none;\n  margin: 0;\n  padding: 0;\n}\n");
    r.append("li {\n  margin: 0.45rem 0;\n}\n");
    r.append("li a {\n  display: block;\n  padding: 0.35rem 0.55rem;\n  border-radius: 8px;\n  transition: background 120ms ease-in-out;\n  color: var(--link);\n  text-decoration: none;\n  font-weight: 500;\n}\n");
    r.append("li a:hover {\n  background: rgba(0, 0, 0, 0.04);\n  color: var(--link-hover);\n}\n");
    r.append(".context-menu {\n  position: absolute;\n  display: none;\n  min-width: 200px;\n  padding: 0.25rem 0;\n  background: var(--panel);\n  border: 1px solid var(--border);\n  border-radius: 10px;\n  box-shadow: 0 12px 24px rgba(0, 0, 0, 0.18);\n  z-index: 1000;\n}\n");
    r.append(".context-menu button {\n  width: 100%;\n  padding: 0.55rem 1rem;\n  border: none;\n  background: transparent;\n  color: var(--fg);\n  text-align: left;\n  cursor: pointer;\n  font-size: 0.95rem;\n}\n");
    r.append(".context-menu button:hover {\n  background: rgba(0, 0, 0, 0.06);\n}\n");
    r.append(".note {\n  margin-top: 1.8rem;\n  color: var(--muted);\n  font-size: 0.88rem;\n}\n");
    r.append("</style></head><body><div class=\"container\"> ");
    r.append("<h1>Directory listing</h1>");
    r.append("<div class=\"path\">");
    r
}

/// The text of `page_tail`.
fn page_tail_string() -> (r: String)
    ensures
        r@ == page_tail(),
{
    let mut r = "</ul>".to_owned();
    r.append("<div class=\"note\">Right-click an item to download the folder as an archive.</div>");
    r.append("<div id=\"contextMenu\" class=\"context-menu\">");
    r.append("<button data-format=\"zip\">Download ZIP</button>");
    r.append("<button data-format=\"tar.gz\">Download tar.gz</button>");
    r.append("<button data-format=\"7z\">Download 7z</button>");
    r.append("</div>");
    r.append("</div><script>");
    r.append("(function() {");
    r.append("  const menu = document.getElementById('contextMenu');");
    r.append("  let currentPath = ''; ");
    r.append("  function hideMenu() { menu.style.display = 'none'; }");
    r.append("  function showMenu(x, y) { menu.style.left = `${x}px`; menu.style.top = `${y}px`; menu.style.display = 'block'; }");
    r.append("  document.addEventListener('click', () => hideMenu());");
    r.append("  document.addEventListener('contextmenu', (event) => {");
    r.append("    const target = event.target.closest('li[data-path]');");
    r.append("    if (!target) return;");
    r.append("    event.preventDefault();");
    r.append("    currentPath = target.getAttribute('data-path') || ''; ");
    r.append("    showMenu(event.pageX, event.pageY);");
    r.append("  });");
    r.append("  menu.addEventListener('click', (event) => {");
    r.append("    const btn = event.target.closest('button[data-format]');");
    r.append("    if (!btn) return;");
    r.append("    const format = btn.getAttribute('data-format');");
    r.append("    if (!format) return;");
    r.append("    const url = `/download?path=${encodeURIComponent(currentPath)}&format=${encodeURIComponent(format)}`;");
    r.append("    window.location.href = url;");
    r.append("  });");
    r.append("})();");
    r.append("</script></body></html>");
    r
}

fn ends_with(s: &str, c: char) -> (r: bool)
    ensures
        r == ends_with_char(s@, c),
{
    let cs = chars_of(s);
    cs.len() > 0 && cs[cs.len() - 1] == c
}

/// The link to the entry `e` from the page at `url`.
fn href_of(url: &str, e: &DirEntryInfo) -> (r: String)
    ensures
        r@ == entry_href(url@, e@),
{
    let enc = encode_component(e.name.as_str());
    let mut href = url.to_owned();
    if !ends_with(url, '/') {
        push_char(&mut href, '/');
        assert(url@.push('/') == url@ + seq!['/']);
    }
    href.append(enc.as_str());
    if e.is_dir && !ends_with(href.as_str(), '/') {
        push_char(&mut href, '/');
    }
    href
}

/// The list item of the entry `e` on the page at `url`.
fn item_of(url: &str, e: &DirEntryInfo) -> (r: String)
    ensures
        r@ == entry_item(url@, e@),
{
    let href = href_of(url, e);
    let mut label = e.name.clone();
    if e.is_dir {
        push_char(&mut label, '/');
    }
    let mut item = "<li data-path=\"".to_owned();
    item.append(href.as_str());
    item.append("\"><a href=\"");
    item.append(href.as_str());
    item.append("\">");
    item.append(label.as_str());
    item.append("</a></li>");
    item
}

/// The list items of the page at `url` for the entries in the given order.
pub fn render_items(url: &str, entries: &Vec<DirEntryInfo>) -> (r: String)
    ensures
        r@ == listing_items(url@, entries_view(entries@)),
{
    let mut items = String::new();
    let is_root = same_text(url, "/");
    proof {
        reveal_strlit("/");
        assert("/"@ =~= seq!['/']);
    }
    if !is_root {
        let parent = match path_parent(url) {
            Some(p) => if p.as_str().is_empty() { "/".to_owned() } else { p },
            None => "/".to_owned(),
        };
        items.append("<li><a href=\"");
        items.append(parent.as_str());
        items.append("\">..</a></li>");
        assert(items@ == parent_item(url@));
    }
    let ghost start = items@;
    let mut i: usize = 0;
    while i < entries.len()
        invariant
            i <= entries.len(),
            items@ == start + entry_items(url@, entries_view(entries@).take(i as int)),
        decreases entries.len() - i,
    {
        let ghost ev = entries_view(entries@);
        assert(ev.take(i + 1).drop_last() == ev.take(i as int));
        assert(ev.take(i + 1).last() == entries@[i as int]@);
        let e = &entries[i];
        if !same_text(e.name.as_str(), "ls_web") {
            let item = item_of(url, e);
            items.append(item.as_str());
        }
        i = i + 1;
    }
    assert(entries_view(entries@).take(entries.len() as int) == entries_view(entries@));
    if is_root {
        assert(start == Seq::<char>::empty());
        assert(items@ == entry_items(url@, entries_view(entries@)));
    }
    items
}

/// The listing page of the directory `dir_path` (its full path, as shown on
/// the page), reached by `url`, its entries in the given order.
pub fn render_listing(dir_path: &str, url: &str, entries: &Vec<DirEntryInfo>) -> (html: String)
    ensures
        html@ == listing_page(dir_path@, url@, entries_view(entries@)),
{
    let mut html = page_head_string();
    html.append(dir_path);
    html.append("</div>");
    html.append("<ul>");
    let items = render_items(url, entries);
    html.append(items.as_str());
    let tail = page_tail_string();
    html.append(tail.as_str());
    html
}

/// The listing page of a directory: its entries sorted as `sort_entries`
/// sorts them (stably, in listing order), then rendered as `render_listing`
/// renders them.
pub fn render_directory_listing(
    dir_path: &str,
    entries: Vec<DirEntryInfo>,
    url: &str,
    sort_dirs_first: bool,
) -> (html: String)
    ensures
        html@ == listing_page(dir_path@, url@, stable_sort(entries_view(entries@), sort_dirs_first)),
        is_listing_order(stable_sort(entries_view(entries@), sort_dirs_first), entries_view(entries@), sort_dirs_first),
{
    let sorted = sort_entries(entries, sort_dirs_first);
    let html = render_listing(dir_path, url, &sorted);
    assert(is_listing_order(entries_view(sorted@), entries_view(entries@), sort_dirs_first));
    html
}

} // verus!
