//! One level of a directory as tree entries: hidden names left out,
//! directories first, names ascending.
use vstd::prelude::*;
use vstd::seq_lib::{to_multiset_build, to_multiset_contains, to_multiset_insert};
use vstd::utf8::encode_utf8;

verus! {

/// A node of the file tree. A listing leaves `children` empty: the children
/// of a directory are listed when they are asked for.
#[derive(Debug, PartialEq, Eq)]
pub struct FileEntry {
    pub name: String,
    pub path: String,
    pub is_dir: bool,
    pub children: Option<Vec<FileEntry>>,
}

/// What a listing says of one entry.
pub struct EntryView {
    pub name: Seq<char>,
    pub path: Seq<char>,
    pub is_dir: bool,
}

impl View for FileEntry {
    type V = EntryView;

    open spec fn view(&self) -> EntryView {
        EntryView { name: self.name@, path: self.path@, is_dir: self.is_dir }
    }
}

/// What was read of one directory entry.
#[derive(Debug, PartialEq, Eq)]
pub enum DirItem {
    /// The entry was read. `name` is `None` where the last component of the
    /// path is no valid text; `path` is the entry's absolute path.
    Found { name: Option<String>, path: String, is_dir: bool },
    /// Reading the entry failed; `reason` is the system's message.
    Unreadable { reason: String },
}

/// What reading a directory gave.
#[derive(Debug, PartialEq, Eq)]
pub enum DirScan {
    /// The path does not exist.
    Missing,
    /// The directory could not be opened; `reason` is the system's message.
    Refused { reason: String },
    /// The directory was opened; `items` are its entries in the order read.
    Listed { items: Vec<DirItem> },
}

/// Why a listing failed.
#[derive(Debug, PartialEq, Eq)]
pub enum FsError {
    /// The path does not exist.
    NotFound,
    /// A file system operation failed; holds the system's message.
    Io(String),
}

/// The text of the message that an error shows.
pub open spec fn fs_message_text(e: FsError) -> Seq<char> {
    match e {
        FsError::NotFound => "Path does not exist"@,
        FsError::Io(m) => m@,
    }
}

impl FsError {
    /// The message for the user.
    pub fn message(&self) -> (r: String)
        ensures
            r@ == fs_message_text(*self),
    {
        match self {
            FsError::NotFound => "Path does not exist".to_owned(),
            FsError::Io(m) => m.clone(),
        }
    }
}

/// The views of a sequence of entries.
pub open spec fn views(v: Seq<FileEntry>) -> Seq<EntryView> {
    Seq::new(v.len(), |i: int| v[i]@)
}

/// The entry that an item stands for: a name that is no valid text counts
/// as the empty name.
pub open spec fn item_view(item: DirItem) -> EntryView {
    match item {
        DirItem::Found { name, path, is_dir } => EntryView {
            name: match name {
                Some(n) => n@,
                None => Seq::empty(),
            },
            path: path@,
            is_dir,
        },
        DirItem::Unreadable { .. } => EntryView {
            name: Seq::empty(),
            path: Seq::empty(),
            is_dir: false,
        },
    }
}

/// The entries that the items stand for.
pub open spec fn item_views(items: Seq<DirItem>) -> Seq<EntryView> {
    Seq::new(items.len(), |i: int| item_view(items[i]))
}

/// The index of the first unreadable item at or after `i` (`items.len()` if
/// there is none).
pub open spec fn first_unreadable(items: Seq<DirItem>, i: int) -> int
    decreases items.len() - i,
{
    if 0 <= i < items.len() && items[i] is Found {
        first_unreadable(items, i + 1)
    } else {
        i
    }
}

/// A name is hidden if it starts with a dot.
pub open spec fn is_hidden(name: Seq<char>) -> bool {
    name.len() > 0 && name[0] == '.'
}

/// An entry is shown unless its name is hidden.
pub open spec fn shown(e: EntryView) -> bool {
    !is_hidden(e.name)
}

/// The entries of `s` that are shown, in their order.
pub open spec fn visible(s: Seq<EntryView>) -> Seq<EntryView> {
    s.filter(|e: EntryView| shown(e))
}

/// Lexicographic order on bytes from index `i` on: `a` is a prefix of `b`,
/// or holds the smaller byte where they first differ.
pub open spec fn bytes_le_from(a: Seq<u8>, b: Seq<u8>, i: int) -> bool
    decreases a.len() - i,
{
    if i < 0 || i >= a.len() {
        true
    } else if i >= b.len() {
        false
    } else if a[i] != b[i] {
        a[i] < b[i]
    } else {
        bytes_le_from(a, b, i + 1)
    }
}

/// The order of names: that of their UTF-8 bytes, as strings compare.
pub open spec fn name_le(a: Seq<char>, b: Seq<char>) -> bool {
    bytes_le_from(encode_utf8(a), encode_utf8(b), 0)
}

/// The order of a listing: a directory comes before a file; two of a kind
/// go by name.
pub open spec fn entry_le(a: EntryView, b: EntryView) -> bool {
    if a.is_dir == b.is_dir {
        name_le(a.name, b.name)
    } else {
        a.is_dir
    }
}

/// No entry comes before one that it should follow.
pub open spec fn ordered(s: Seq<EntryView>) -> bool {
    forall|i: int, j: int| 0 <= i < j < s.len() ==> entry_le(s[i], s[j])
}

/// Where `e` goes into `s`: behind the last entry that it does not precede.
pub open spec fn slot(s: Seq<EntryView>, e: EntryView) -> int
    decreases s.len(),
{
    if s.len() == 0 {
        0
    } else if entry_le(s.last(), e) {
        s.len() as int
    } else {
        slot(s.drop_last(), e)
    }
}

/// `s` in listing order: each entry in turn is put into its slot among
/// those before it.
pub open spec fn sorted(s: Seq<EntryView>) -> Seq<EntryView>
    decreases s.len(),
{
    if s.len() == 0 {
        s
    } else {
        let t = sorted(s.drop_last());
        t.insert(slot(t, s.last()), s.last())
    }
}

/// The listing that the items of a directory give.
pub open spec fn listing(items: Seq<DirItem>) -> Seq<EntryView> {
    sorted(visible(item_views(items)))
}

/// Of two byte strings one is below or equal to the other.
pub proof fn lemma_bytes_le_total(a: Seq<u8>, b: Seq<u8>, i: int)
    ensures
        bytes_le_from(a, b, i) || bytes_le_from(b, a, i),
    decreases a.len() - i,
{
    if 0 <= i < a.len() && i < b.len() && a[i] == b[i] {
        lemma_bytes_le_total(a, b, i + 1);
    }
}

/// The order on byte strings is transitive.
pub proof fn lemma_bytes_le_trans(a: Seq<u8>, b: Seq<u8>, c: Seq<u8>, i: int)
    requires
        bytes_le_from(a, b, i),
        bytes_le_from(b, c, i),
    ensures
        bytes_le_from(a, c, i),
    decreases a.len() - i,
{
    if 0 <= i < a.len() && a[i] == b[i] && b[i] == c[i] {
        lemma_bytes_le_trans(a, b, c, i + 1);
    }
}

/// Of two entries one may stand before the other.
pub proof fn lemma_entry_le_total(a: EntryView, b: EntryView)
    ensures
        entry_le(a, b) || entry_le(b, a),
{
    lemma_bytes_le_total(encode_utf8(a.name), encode_utf8(b.name), 0);
}

/// The listing order is transitive.
pub proof fn lemma_entry_le_trans(a: EntryView, b: EntryView, c: EntryView)
    requires
        entry_le(a, b),
        entry_le(b, c),
    ensures
        entry_le(a, c),
{
    if a.is_dir == b.is_dir && b.is_dir == c.is_dir {
        lemma_bytes_le_trans(encode_utf8(a.name), encode_utf8(b.name), encode_utf8(c.name), 0);
    }
}

/// In an ordered sequence, every entry before the slot of `e` may stand
/// before `e`, and none from the slot on may.
pub proof fn lemma_slot(s: Seq<EntryView>, e: EntryView)
    requires
        ordered(s),
    ensures
        0 <= slot(s, e) <= s.len(),
        forall|i: int| 0 <= i < slot(s, e) ==> entry_le(#[trigger] s[i], e),
        forall|i: int| slot(s, e) <= i < s.len() ==> !entry_le(#[trigger] s[i], e),
    decreases s.len(),
{
    if s.len() > 0 {
        if entry_le(s.last(), e) {
            assert forall|i: int| 0 <= i < s.len() implies entry_le(#[trigger] s[i], e) by {
                if i < s.len() - 1 {
                    lemma_entry_le_trans(s[i], s.last(), e);
                }
            }
        } else {
            let t = s.drop_last();
            assert(ordered(t)) by {
                assert forall|i: int, j: int| 0 <= i < j < t.len() implies entry_le(t[i], t[j]) by {
                    assert(t[i] == s[i] && t[j] == s[j]);
                }
            }
            lemma_slot(t, e);
            assert forall|i: int| 0 <= i < slot(s, e) implies entry_le(#[trigger] s[i], e) by {
                assert(t[i] == s[i]);
            }
            assert forall|i: int| slot(s, e) <= i < s.len() implies !entry_le(#[trigger] s[i], e) by {
                if i < s.len() - 1 {
                    assert(t[i] == s[i]);
                }
            }
        }
    }
}

/// Sorting yields an ordered sequence that holds the same entries, each as
/// often as before.
pub proof fn lemma_sorted(s: Seq<EntryView>)
    ensures
        ordered(sorted(s)),
        sorted(s).len() == s.len(),
        sorted(s).to_multiset() == s.to_multiset(),
    decreases s.len(),
{
    if s.len() > 0 {
        let t = sorted(s.drop_last());
        let e = s.last();
        lemma_sorted(s.drop_last());
        lemma_slot(t, e);
        let p = slot(t, e);
        let r = t.insert(p, e);
        assert forall|i: int, j: int| 0 <= i < j < r.len() implies entry_le(r[i], r[j]) by {
            if j < p {
                assert(r[i] == t[i] && r[j] == t[j]);
            } else if j == p {
                assert(r[i] == t[i]);
            } else {
                assert(r[j] == t[j - 1]);
                if i < p {
                    assert(r[i] == t[i]);
                } else if i == p {
                    lemma_entry_le_total(e, t[j - 1]);
                } else {
                    assert(r[i] == t[i - 1]);
                }
            }
        }
        to_multiset_insert(t, p, e);
        to_multiset_build(s.drop_last(), e);
        assert(s.drop_last().push(e) =~= s);
    }
}

/// A listing shows no hidden name, and shows every entry that is not
/// hidden as often as it was read.
pub proof fn lemma_listing_shows(items: Seq<DirItem>)
    ensures
        forall|i: int| 0 <= i < listing(items).len() ==> shown(#[trigger] listing(items)[i]),
        forall|e: EntryView|
            shown(e) && item_views(items).contains(e) ==> #[trigger] listing(items).contains(e),
{
    let all = item_views(items);
    let vis = visible(all);
    let out = listing(items);
    lemma_sorted(vis);
    assert forall|i: int| 0 <= i < out.len() implies shown(#[trigger] out[i]) by {
        let e = out[i];
        assert(out.contains(e));
        to_multiset_contains(out, e);
        to_multiset_contains(vis, e);
        let k = choose|k: int| 0 <= k < vis.len() && vis[k] == e;
        all.lemma_filter_pred(|e: EntryView| shown(e), k);
    }
    assert forall|e: EntryView| shown(e) && all.contains(e) implies #[trigger] out.contains(e) by {
        let k = choose|k: int| 0 <= k < all.len() && all[k] == e;
        all.lemma_filter_contains(|e: EntryView| shown(e), k);
        to_multiset_contains(out, e);
        to_multiset_contains(vis, e);
    }
}

/// Whether a name is hidden.
pub fn hidden(name: &str) -> (r: bool)
    ensures
        r == is_hidden(name@),
{
    !name.is_empty() && name.get_char(0) == '.'
}

/// Whether the name `a` is below or equal to the name `b`.
pub fn name_precedes(a: &str, b: &str) -> (r: bool)
    ensures
        r == name_le(a@, b@),
{
    let x = a.as_bytes();
    let y = b.as_bytes();
    let mut i: usize = 0;
    while i < x.len()
        invariant
            x@ == encode_utf8(a@),
            y@ == encode_utf8(b@),
            i <= x@.len(),
            bytes_le_from(x@, y@, i as int) == name_le(a@, b@),
        decreases x@.len() - i,
    {
        if i >= y.len() {
            return false;
        }
        if x[i] != y[i] {
            return x[i] < y[i];
        }
        i += 1;
    }
    true
}

/// Whether `a` may stand before `b` in a listing.
pub fn precedes(a: &FileEntry, b: &FileEntry) -> (r: bool)
    ensures
        r == entry_le(a@, b@),
{
    if a.is_dir == b.is_dir {
        name_precedes(a.name.as_str(), b.name.as_str())
    } else {
        a.is_dir
    }
}

/// The system's message of an unreadable item.
pub open spec fn failure_text(item: DirItem) -> Seq<char> {
    match item {
        DirItem::Unreadable { reason } => reason@,
        DirItem::Found { .. } => Seq::empty(),
    }
}

/// What `list_dir` owes for a scan: the error of a directory that is
/// missing or was refused, else the error of the first unreadable item,
/// else the listing, every entry without children.
pub open spec fn lists_as(scan: &DirScan, r: Result<Vec<FileEntry>, FsError>) -> bool {
    match scan {
        DirScan::Missing => r matches Err(FsError::NotFound),
        DirScan::Refused { reason } => match r {
            Err(FsError::Io(m)) => m@ == reason@,
            _ => false,
        },
        DirScan::Listed { items } => {
            let k = first_unreadable(items@, 0);
            if k < items@.len() {
                match r {
                    Err(FsError::Io(m)) => m@ == failure_text(items@[k]),
                    _ => false,
                }
            } else {
                match r {
                    Ok(v) => views(v@) == listing(items@) && forall|i: int|
                        0 <= i < v@.len() ==> (#[trigger] v@[i]).children is None,
                    Err(_) => false,
                }
            }
        },
    }
}

/// Lists one level of a directory from what was read of it: hidden entries
/// are left out, directories come first, names ascend. One unreadable
/// entry fails the whole listing.
pub fn list_dir(scan: &DirScan) -> (r: Result<Vec<FileEntry>, FsError>)
    ensures
        lists_as(scan, r),
        match r {
            Ok(v) => ordered(views(v@)) && forall|i: int|
                0 <= i < v@.len() ==> !is_hidden((#[trigger] v@[i]).name@),
            Err(_) => true,
        },
{
    match scan {
        DirScan::Missing => Err(FsError::NotFound),
        DirScan::Refused { reason } => Err(FsError::Io(reason.clone())),
        DirScan::Listed { items } => {
            let mut out: Vec<FileEntry> = Vec::new();
            let mut j: usize = 0;
            proof {
                reveal(Seq::filter);
                assert(item_views(items@).take(0) =~= Seq::<EntryView>::empty());
                assert(views(out@) =~= sorted(visible(item_views(items@).take(0))));
            }
            while j < items.len()
                invariant
                    scan is Listed,
                    scan->items == *items,
                    j <= items@.len(),
                    first_unreadable(items@, j as int) == first_unreadable(items@, 0),
                    views(out@) == sorted(visible(item_views(items@).take(j as int))),
                    forall|i: int| 0 <= i < out@.len() ==> (#[trigger] out@[i]).children is None,
                decreases items@.len() - j,
            {
                let ghost upto = item_views(items@).take(j + 1);
                let ghost before = item_views(items@).take(j as int);
                proof {
                    reveal(Seq::filter);
                    assert(upto.drop_last() =~= before);
                    assert(upto.last() == item_view(items@[j as int]));
                }
                match &items[j] {
                    DirItem::Unreadable { reason } => {
                        let failure = FsError::Io(reason.clone());
                        proof {
                            assert(first_unreadable(items@, j as int) == j);
                            assert(failure_text(items@[j as int]) == reason@);
                        }
                        return Err(failure);
                    },
                    DirItem::Found { name, path, is_dir } => {
                        let name: String = match name {
                            Some(n) => n.clone(),
                            None => String::new(),
                        };
                        if !hidden(name.as_str()) {
                            let e = FileEntry {
                                name,
                                path: path.clone(),
                                is_dir: *is_dir,
                                children: None,
                            };
                            assert(e@ == upto.last());
                            let mut p: usize = out.len();
                            assert(views(out@).take(p as int) =~= views(out@));
                            while p > 0 && !precedes(&out[p - 1], &e)
                                invariant
                                    p <= out@.len(),
                                    slot(views(out@).take(p as int), e@) == slot(views(out@), e@),
                                decreases p,
                            {
                                proof {
                                    assert(views(out@).take(p as int).drop_last() =~= views(
                                        out@,
                                    ).take(p - 1));
                                }
                                p -= 1;
                            }
                            let ghost old_out = out@;
                            out.insert(p, e);
                            proof {
                                assert(views(out@) =~= views(old_out).insert(p as int, e@));
                                assert(visible(upto) == visible(before).push(e@));
                                assert(visible(upto).drop_last() =~= visible(before));
                            }
                        } else {
                            assert(visible(upto) == visible(before));
                        }
                    },
                }
                j += 1;
            }
            proof {
                assert(item_views(items@).take(j as int) =~= item_views(items@));
                lemma_sorted(visible(item_views(items@)));
                lemma_listing_shows(items@);
                assert forall|i: int| 0 <= i < out@.len() implies !is_hidden(
                    (#[trigger] out@[i]).name@,
                ) by {
                    assert(views(out@)[i] == out@[i]@);
                    assert(shown(listing(items@)[i]));
                }
            }
            Ok(out)
        },
    }
}

} // verus!
