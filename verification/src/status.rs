//! Status kinds and the path-keyed map that a status query yields.
use vstd::prelude::*;

verus! {

/// The category that a two-character status code stands for.
#[derive(Clone, Copy, Debug, PartialEq, Eq, Structural)]
pub enum StatusKind {
    Modified,
    Added,
    Deleted,
    Renamed,
    Copied,
    Untracked,
    Unknown,
}

impl StatusKind {
    /// The lower-case word by which the kind is shown.
    pub open spec fn label_text(self) -> Seq<char> {
        match self {
            StatusKind::Modified => "modified"@,
            StatusKind::Added => "added"@,
            StatusKind::Deleted => "deleted"@,
            StatusKind::Renamed => "renamed"@,
            StatusKind::Copied => "copied"@,
            StatusKind::Untracked => "untracked"@,
            StatusKind::Unknown => "unknown"@,
        }
    }

    /// Returns the lower-case word by which the kind is shown.
    pub fn label(&self) -> (r: &'static str)
        ensures
            r@ == self.label_text(),
    {
        match self {
            StatusKind::Modified => "modified",
            StatusKind::Added => "added",
            StatusKind::Deleted => "deleted",
            StatusKind::Renamed => "renamed",
            StatusKind::Copied => "copied",
            StatusKind::Untracked => "untracked",
            StatusKind::Unknown => "unknown",
        }
    }
}

/// Whether `code` is the single character `a`.
pub open spec fn is_one(code: Seq<char>, a: char) -> bool {
    code.len() == 1 && code[0] == a
}

/// Whether `code` is the two characters `a`, `b`.
pub open spec fn is_two(code: Seq<char>, a: char, b: char) -> bool {
    code.len() == 2 && code[0] == a && code[1] == b
}

/// The kind that a status code, already trimmed, stands for. Codes outside
/// the table, those of unmerged paths among them, are `Unknown`.
pub open spec fn kind_of(code: Seq<char>) -> StatusKind {
    if is_one(code, 'M') || is_two(code, ' ', 'M') || is_two(code, 'M', 'M') {
        StatusKind::Modified
    } else if is_one(code, 'A') || is_two(code, 'A', 'M') {
        StatusKind::Added
    } else if is_one(code, 'D') || is_two(code, ' ', 'D') {
        StatusKind::Deleted
    } else if is_one(code, 'R') {
        StatusKind::Renamed
    } else if is_one(code, 'C') {
        StatusKind::Copied
    } else if is_two(code, '?', '?') {
        StatusKind::Untracked
    } else {
        StatusKind::Unknown
    }
}

/// Classifies a trimmed status code.
pub fn classify(code: &str) -> (kind: StatusKind)
    ensures
        kind == kind_of(code@),
{
    let n: usize = code.unicode_len();
    if n == 1 {
        let a = code.get_char(0);
        if a == 'M' {
            StatusKind::Modified
        } else if a == 'A' {
            StatusKind::Added
        } else if a == 'D' {
            StatusKind::Deleted
        } else if a == 'R' {
            StatusKind::Renamed
        } else if a == 'C' {
            StatusKind::Copied
        } else {
            StatusKind::Unknown
        }
    } else if n == 2 {
        let a = code.get_char(0);
        let b = code.get_char(1);
        if (a == ' ' || a == 'M') && b == 'M' {
            StatusKind::Modified
        } else if a == 'A' && b == 'M' {
            StatusKind::Added
        } else if a == ' ' && b == 'D' {
            StatusKind::Deleted
        } else if a == '?' && b == '?' {
            StatusKind::Untracked
        } else {
            StatusKind::Unknown
        }
    } else {
        StatusKind::Unknown
    }
}

/// One path with its status kind.
#[derive(Debug)]
pub struct StatusEntry {
    pub path: String,
    pub kind: StatusKind,
}

/// The map that a sequence of entries builds when each is inserted in turn,
/// so that a later entry replaces an earlier one with the same path.
pub open spec fn entries_map(s: Seq<StatusEntry>) -> Map<Seq<char>, StatusKind>
    decreases s.len(),
{
    if s.len() == 0 {
        Map::empty()
    } else {
        entries_map(s.drop_last()).insert(s.last().path@, s.last().kind)
    }
}

/// No path occurs twice among the entries.
pub open spec fn distinct_paths(s: Seq<StatusEntry>) -> bool {
    forall|i: int, j: int| 0 <= i < j < s.len() ==> s[i].path@ != s[j].path@
}

/// The keys of `entries_map(s)` are the paths of `s`.
pub proof fn lemma_entries_map_keys(s: Seq<StatusEntry>)
    ensures
        forall|k: Seq<char>| #[trigger]
            entries_map(s).contains_key(k) <==> exists|i: int|
                0 <= i < s.len() && (#[trigger] s[i]).path@ == k,
    decreases s.len(),
{
    if s.len() > 0 {
        let t = s.drop_last();
        lemma_entries_map_keys(t);
        assert forall|k: Seq<char>| #[trigger]
            entries_map(s).contains_key(k) implies exists|i: int|
            0 <= i < s.len() && (#[trigger] s[i]).path@ == k by {
            if k == s.last().path@ {
                assert(s[s.len() - 1].path@ == k);
            } else {
                assert(entries_map(t).contains_key(k));
                let i = choose|i: int| 0 <= i < t.len() && (#[trigger] t[i]).path@ == k;
                assert(s[i].path@ == k);
            }
        }
        assert forall|k: Seq<char>|
            (exists|i: int|
                0 <= i < s.len() && (#[trigger] s[i]).path@ == k) implies #[trigger] entries_map(
            s,
        ).contains_key(k) by {
            let i = choose|i: int| 0 <= i < s.len() && (#[trigger] s[i]).path@ == k;
            if i < s.len() - 1 {
                assert(t[i].path@ == k);
                assert(entries_map(t).contains_key(k));
            } else {
                assert(s.last().path@ == k);
            }
        }
    }
}

/// Where no path occurs twice, each entry's path maps to that entry's kind.
pub proof fn lemma_entries_map_lookup(s: Seq<StatusEntry>, i: int)
    requires
        distinct_paths(s),
        0 <= i < s.len(),
    ensures
        entries_map(s).contains_key(s[i].path@),
        entries_map(s)[s[i].path@] == s[i].kind,
    decreases s.len(),
{
    if i < s.len() - 1 {
        let t = s.drop_last();
        assert(t[i] == s[i]);
        assert(distinct_paths(t)) by {
            assert forall|a: int, b: int| 0 <= a < b < t.len() implies t[a].path@ != t[b].path@ by {
                assert(t[a] == s[a] && t[b] == s[b]);
            }
        }
        lemma_entries_map_lookup(t, i);
    }
}

/// Replacing the kind of the entry at `i` is an insert under that entry's
/// path, where no path occurs twice.
pub proof fn lemma_entries_map_replace(s: Seq<StatusEntry>, u: Seq<StatusEntry>, i: int)
    requires
        distinct_paths(s),
        0 <= i < s.len(),
        u.len() == s.len(),
        u[i].path@ == s[i].path@,
        forall|j: int| 0 <= j < s.len() && j != i ==> u[j] == s[j],
    ensures
        entries_map(u) == entries_map(s).insert(s[i].path@, u[i].kind),
        distinct_paths(u),
    decreases s.len(),
{
    let t = s.drop_last();
    let v = u.drop_last();
    if i == s.len() - 1 {
        assert(v =~= t);
        assert(entries_map(u) =~= entries_map(s).insert(s[i].path@, u[i].kind));
    } else {
        assert(distinct_paths(t)) by {
            assert forall|a: int, b: int| 0 <= a < b < t.len() implies t[a].path@ != t[b].path@ by {
                assert(t[a] == s[a] && t[b] == s[b]);
            }
        }
        assert(t[i] == s[i] && v[i] == u[i]);
        assert forall|j: int| 0 <= j < t.len() && j != i implies v[j] == t[j] by {
            assert(v[j] == u[j] && t[j] == s[j]);
        }
        lemma_entries_map_replace(t, v, i);
        assert(u.last() == s.last());
        assert(s[s.len() - 1].path@ != s[i].path@);
        assert(entries_map(u) =~= entries_map(s).insert(s[i].path@, u[i].kind));
    }
    assert forall|a: int, b: int| 0 <= a < b < u.len() implies u[a].path@ != u[b].path@ by {
        assert(s[a].path@ != s[b].path@);
    }
}

/// A finite map from absolute paths to status kinds that can be walked: it
/// holds one entry per path.
#[derive(Debug)]
pub struct StatusMap {
    entries: Vec<StatusEntry>,
}

impl StatusMap {
    /// The mapping that the entries stand for.
    pub closed spec fn view(&self) -> Map<Seq<char>, StatusKind> {
        entries_map(self.entries@)
    }

    /// The entries, one per key.
    pub closed spec fn items(&self) -> Seq<StatusEntry> {
        self.entries@
    }

    /// No path is held twice.
    pub closed spec fn wf(&self) -> bool {
        distinct_paths(self.entries@)
    }

    /// The entries of a well-formed map are its view, pair for pair.
    pub proof fn lemma_items(&self)
        requires
            self.wf(),
        ensures
            self@ == entries_map(self.items()),
            distinct_paths(self.items()),
            forall|i: int|
                0 <= i < self.items().len() ==> self@.contains_key(
                    (#[trigger] self.items()[i]).path@,
                ) && self@[self.items()[i].path@] == self.items()[i].kind,
            forall|k: Seq<char>| #[trigger]
                self@.contains_key(k) <==> exists|i: int|
                    0 <= i < self.items().len() && (#[trigger] self.items()[i]).path@ == k,
    {
        lemma_entries_map_keys(self.entries@);
        assert forall|i: int| 0 <= i < self.items().len() implies self@.contains_key(
            (#[trigger] self.items()[i]).path@,
        ) && self@[self.items()[i].path@] == self.items()[i].kind by {
            lemma_entries_map_lookup(self.entries@, i);
        }
    }

    /// Creates an empty map.
    pub fn new() -> (m: Self)
        ensures
            m.wf(),
            m@ == Map::<Seq<char>, StatusKind>::empty(),
            m.items().len() == 0,
    {
        StatusMap { entries: Vec::new() }
    }

    /// Maps `path` to `kind`, replacing what `path` was mapped to before.
    pub fn insert(&mut self, path: String, kind: StatusKind)
        requires
            old(self).wf(),
        ensures
            final(self).wf(),
            final(self)@ == old(self)@.insert(path@, kind),
    {
        let mut i: usize = 0;
        while i < self.entries.len()
            invariant
                i <= self.entries@.len(),
                self.entries@ == old(self).entries@,
                distinct_paths(self.entries@),
                forall|k: int| 0 <= k < i ==> self.entries@[k].path@ != path@,
            decreases self.entries@.len() - i,
        {
            if self.entries[i].path == path {
                let ghost before = self.entries@;
                self.entries.set(i, StatusEntry { path, kind });
                proof {
                    lemma_entries_map_replace(before, self.entries@, i as int);
                }
                return ;
            }
            i += 1;
        }
        let ghost before = self.entries@;
        self.entries.push(StatusEntry { path, kind });
        proof {
            assert(self.entries@.drop_last() =~= before);
            assert forall|a: int, b: int| 0 <= a < b < self.entries@.len() implies self.entries@[a].path@
                != self.entries@[b].path@ by {
                if b < before.len() {
                    assert(before[a].path@ != before[b].path@);
                }
            }
        }
    }

    /// Looks `path` up.
    pub fn get(&self, path: &str) -> (r: Option<StatusKind>)
        requires
            self.wf(),
        ensures
            match r {
                Some(kind) => self@.contains_key(path@) && self@[path@] == kind,
                None => !self@.contains_key(path@),
            },
    {
        let wanted = path.to_owned();
        let mut i: usize = 0;
        while i < self.entries.len()
            invariant
                i <= self.entries@.len(),
                self.wf(),
                wanted@ == path@,
                forall|k: int| 0 <= k < i ==> self.entries@[k].path@ != path@,
            decreases self.entries@.len() - i,
        {
            if self.entries[i].path == wanted {
                proof {
                    lemma_entries_map_lookup(self.entries@, i as int);
                }
                return Some(self.entries[i].kind);
            }
            i += 1;
        }
        proof {
            lemma_entries_map_keys(self.entries@);
        }
        None
    }

    /// The entries, one per key; `lemma_items` relates them to the view.
    pub fn entries(&self) -> (r: &Vec<StatusEntry>)
        ensures
            r@ == self.items(),
    {
        &self.entries
    }
}

} // verus!
