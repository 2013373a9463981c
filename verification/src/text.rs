//! Text primitives shared by the parsers: character decoding, whitespace
//! trimming and line splitting, each specified over `Seq<char>`.
use vstd::prelude::*;
use vstd::std_specs::iter::IteratorSpec;

verus! {

/// The views of a sequence of owned strings.
pub open spec fn texts(v: Seq<String>) -> Seq<Seq<char>> {
    Seq::new(v.len(), |i: int| v[i]@)
}

/// The code points with the Unicode `White_Space` property.
pub open spec fn is_space(c: char) -> bool {
    let n: u32 = c as u32;
    ||| 0x09 <= n <= 0x0D
    ||| n == 0x20
    ||| n == 0x85
    ||| n == 0xA0
    ||| n == 0x1680
    ||| 0x2000 <= n <= 0x200A
    ||| n == 0x2028
    ||| n == 0x2029
    ||| n == 0x202F
    ||| n == 0x205F
    ||| n == 0x3000
}

/// The first index at or after `i` that holds no whitespace (`s.len()` if none).
pub open spec fn first_kept(s: Seq<char>, i: int) -> int
    decreases s.len() - i,
{
    if 0 <= i < s.len() && is_space(s[i]) {
        first_kept(s, i + 1)
    } else {
        i
    }
}

/// The end of the text left of `j` once the whitespace that runs up to `j`
/// is dropped, never going below `lo`.
pub open spec fn last_kept(s: Seq<char>, lo: int, j: int) -> int
    decreases j - lo,
{
    if lo < j <= s.len() && is_space(s[j - 1]) {
        last_kept(s, lo, j - 1)
    } else {
        j
    }
}

/// `s` without its leading and trailing whitespace.
pub open spec fn trimmed(s: Seq<char>) -> Seq<char> {
    let a = first_kept(s, 0);
    let b = last_kept(s, a, s.len() as int);
    s.subrange(a, b)
}

/// From `i` up to `first_kept(s, i)` there is only whitespace, and what
/// stands at `first_kept(s, i)` is none.
pub proof fn lemma_first_kept(s: Seq<char>, i: int)
    requires
        0 <= i <= s.len(),
    ensures
        i <= first_kept(s, i) <= s.len(),
        forall|k: int| i <= k < first_kept(s, i) ==> is_space(#[trigger] s[k]),
        first_kept(s, i) < s.len() ==> !is_space(s[first_kept(s, i)]),
    decreases s.len() - i,
{
    if i < s.len() && is_space(s[i]) {
        lemma_first_kept(s, i + 1);
    }
}

/// From `last_kept(s, lo, j)` up to `j` there is only whitespace, and what
/// stands just before `last_kept(s, lo, j)` is none, unless that is `lo`.
pub proof fn lemma_last_kept(s: Seq<char>, lo: int, j: int)
    requires
        0 <= lo <= j <= s.len(),
    ensures
        lo <= last_kept(s, lo, j) <= j,
        forall|k: int| last_kept(s, lo, j) <= k < j ==> is_space(#[trigger] s[k]),
        last_kept(s, lo, j) > lo ==> !is_space(s[last_kept(s, lo, j) - 1]),
    decreases j - lo,
{
    if lo < j && is_space(s[j - 1]) {
        lemma_last_kept(s, lo, j - 1);
    }
}

/// Trimming cuts `s` to the piece between its first and its last character
/// that is no whitespace: what it cuts off is whitespace, and what it leaves
/// neither starts nor ends with whitespace.
pub proof fn lemma_trimmed(s: Seq<char>)
    ensures
        exists|a: int, b: int|
            {
                &&& 0 <= a <= b <= s.len()
                &&& #[trigger] s.subrange(a, b) == trimmed(s)
                &&& forall|k: int| 0 <= k < a || b <= k < s.len() ==> is_space(#[trigger] s[k])
            },
        trimmed(s).len() > 0 ==> !is_space(trimmed(s).first()) && !is_space(trimmed(s).last()),
        trimmed(trimmed(s)) == trimmed(s),
{
    let a = first_kept(s, 0);
    lemma_first_kept(s, 0);
    let b = last_kept(s, a, s.len() as int);
    lemma_last_kept(s, a, s.len() as int);
    assert(s.subrange(a, b) == trimmed(s));
    let t = trimmed(s);
    lemma_first_kept(t, 0);
    if t.len() > 0 {
        assert(t.first() == s[a]);
        assert(t.last() == s[b - 1]);
        assert(first_kept(t, 0) == 0);
        assert(last_kept(t, 0, t.len() as int) == t.len());
    } else {
        assert(first_kept(t, 0) == 0);
        assert(last_kept(t, 0, 0) == 0);
    }
    assert(trimmed(t) =~= t);
}

/// The number of characters from index `i` up to the next line feed or the
/// end of the text.
pub open spec fn line_len(s: Seq<char>, i: int) -> nat
    decreases s.len() - i,
{
    if 0 <= i < s.len() && s[i] != '\n' {
        1 + line_len(s, i + 1)
    } else {
        0
    }
}

/// The line held in `s[i..k]`, where `k` is the index of its line feed or the
/// end of the text: a carriage return just before a line feed is dropped.
pub open spec fn line_text(s: Seq<char>, i: int, k: int) -> Seq<char> {
    if i < k < s.len() && s[k - 1] == '\r' {
        s.subrange(i, k - 1)
    } else {
        s.subrange(i, k)
    }
}

/// The lines of `s` that start at or after index `i`.
pub open spec fn lines_from(s: Seq<char>, i: int) -> Seq<Seq<char>>
    decreases s.len() - i,
{
    if 0 <= i < s.len() {
        let k = i + line_len(s, i);
        if k < s.len() {
            seq![line_text(s, i, k)] + lines_from(s, k + 1)
        } else {
            seq![line_text(s, i, k)]
        }
    } else {
        Seq::empty()
    }
}

/// The lines of `s`: pieces ended by a line feed or by a carriage return and
/// a line feed; a last line needs no ending, and a text that ends in a line
/// ending has no empty line after it.
pub open spec fn lines_of(s: Seq<char>) -> Seq<Seq<char>> {
    lines_from(s, 0)
}

/// A line runs up to the next line feed or to the end of the text, and
/// holds no line feed.
pub proof fn lemma_line_len(s: Seq<char>, i: int)
    requires
        0 <= i <= s.len(),
    ensures
        i + line_len(s, i) <= s.len(),
        forall|k: int| i <= k < i + line_len(s, i) ==> #[trigger] s[k] != '\n',
        i + line_len(s, i) < s.len() ==> s[i + line_len(s, i)] == '\n',
    decreases s.len() - i,
{
    if i < s.len() && s[i] != '\n' {
        lemma_line_len(s, i + 1);
    }
}

/// No line holds a line feed.
pub proof fn lemma_lines_hold_no_line_feed(s: Seq<char>, i: int)
    requires
        0 <= i <= s.len(),
    ensures
        forall|j: int, k: int|
            0 <= j < lines_from(s, i).len() && 0 <= k < lines_from(s, i)[j].len()
                ==> #[trigger] lines_from(s, i)[j][k] != '\n',
    decreases s.len() - i,
{
    if i < s.len() {
        lemma_line_len(s, i);
        let end = i + line_len(s, i);
        let line = line_text(s, i, end);
        assert forall|k: int| 0 <= k < line.len() implies #[trigger] line[k] != '\n' by {
            assert(line[k] == s[i + k]);
        }
        if end < s.len() {
            lemma_lines_hold_no_line_feed(s, end + 1);
            let rest = lines_from(s, end + 1);
            assert forall|j: int, k: int|
                0 <= j < lines_from(s, i).len() && 0 <= k < lines_from(s, i)[j].len()
                    implies #[trigger] lines_from(s, i)[j][k] != '\n' by {
                if j > 0 {
                    assert(lines_from(s, i)[j] == rest[j - 1]);
                    assert(rest[j - 1][k] != '\n');
                }
            }
        }
    }
}

/// Decodes a string slice into its characters.
pub fn to_chars(s: &str) -> (out: Vec<char>)
    ensures
        out@ == s@,
{
    let mut out: Vec<char> = Vec::new();
    let mut it = s.chars();
    loop
        invariant
            it.obeys_prophetic_iter_laws(),
            it.decrease() is Some,
            out@ + it.remaining() == s@,
        decreases it.decrease()->0,
    {
        let ghost before = it;
        let next = it.next();
        match next {
            Some(c) => {
                proof {
                    assert(before.remaining() =~= seq![c] + it.remaining());
                    assert(out@.push(c) + it.remaining() =~= out@ + before.remaining());
                }
                out.push(c);
            },
            None => {
                assert(out@ =~= s@);
                return out;
            },
        }
    }
}

/// Whether `c` is whitespace.
pub fn is_space_char(c: char) -> (r: bool)
    ensures
        r == is_space(c),
{
    let n: u32 = c as u32;
    (0x09 <= n && n <= 0x0D) || n == 0x20 || n == 0x85 || n == 0xA0 || n == 0x1680 || (0x2000 <= n
        && n <= 0x200A) || n == 0x2028 || n == 0x2029 || n == 0x202F || n == 0x205F || n == 0x3000
}

/// Returns `s` without its leading and trailing whitespace.
pub fn trim(s: &str) -> (r: &str)
    ensures
        r@ == trimmed(s@),
{
    let v = to_chars(s);
    let n: usize = v.len();
    let mut a: usize = 0;
    while a < n && is_space_char(v[a])
        invariant
            v@ == s@,
            n == v@.len(),
            a <= n,
            first_kept(s@, a as int) == first_kept(s@, 0),
        decreases n - a,
    {
        a += 1;
    }
    let mut b: usize = n;
    while b > a && is_space_char(v[b - 1])
        invariant
            v@ == s@,
            n == v@.len(),
            a <= b <= n,
            last_kept(s@, a as int, b as int) == last_kept(s@, a as int, n as int),
        decreases b,
    {
        b -= 1;
    }
    s.substring_char(a, b)
}

/// Splits `s` into its lines.
pub fn lines(s: &str) -> (out: Vec<String>)
    ensures
        texts(out@) == lines_of(s@),
{
    let v = to_chars(s);
    let n: usize = v.len();
    let mut out: Vec<String> = Vec::new();
    let mut i: usize = 0;
    assert(texts(out@) + lines_from(s@, 0) =~= lines_of(s@));
    while i < n
        invariant
            v@ == s@,
            n == v@.len(),
            i <= n,
            texts(out@) + lines_from(s@, i as int) == lines_of(s@),
        decreases n - i,
    {
        let mut k: usize = i;
        while k < n && v[k] != '\n'
            invariant
                v@ == s@,
                n == v@.len(),
                i <= k <= n,
                line_len(s@, i as int) == (k - i) + line_len(s@, k as int),
            decreases n - k,
        {
            k += 1;
        }
        let end: usize = if i < k && k < n && v[k - 1] == '\r' {
            k - 1
        } else {
            k
        };
        let piece = s.substring_char(i, end).to_owned();
        let next: usize = if k < n {
            k + 1
        } else {
            n
        };
        proof {
            assert(piece@ == line_text(s@, i as int, k as int));
            assert(lines_from(s@, n as int) =~= Seq::<Seq<char>>::empty());
            assert(texts(out@.push(piece)) =~= texts(out@) + seq![piece@]);
            assert(texts(out@.push(piece)) + lines_from(s@, next as int) =~= texts(out@)
                + lines_from(s@, i as int));
        }
        out.push(piece);
        i = next;
    }
    assert(texts(out@) + lines_from(s@, i as int) =~= texts(out@));
    out
}

/// Whether the two slices hold the same characters.
pub fn same_text(a: &str, b: &str) -> (r: bool)
    ensures
        r == (a@ == b@),
{
    let x = to_chars(a);
    let y = to_chars(b);
    if x.len() != y.len() {
        return false;
    }
    let mut i: usize = 0;
    while i < x.len()
        invariant
            x@ == a@,
            y@ == b@,
            x@.len() == y@.len(),
            i <= x@.len(),
            forall|k: int| 0 <= k < i ==> x@[k] == y@[k],
        decreases x@.len() - i,
    {
        if x[i] != y[i] {
            return false;
        }
        i += 1;
    }
    assert(a@ =~= b@);
    true
}

} // verus!
