//! Character-level helpers: lexicographic order on strings, sorted
//! de-duplicated name lists, substring search and small path operations.
use vstd::prelude::*;

verus! {

/// The characters of `s`, in order.
pub fn chars_of(s: &str) -> (out: Vec<char>)
    ensures
        out@ == s@,
{
    let mut out: Vec<char> = Vec::new();
    for c in it: s.chars()
        invariant
            out@ == it.seq().take(it.index() as int),
            it.seq() == s@,
    {
        out.push(c);
    }
    out
}

// ── Lexicographic order on character sequences ──────────────────────────────

/// Strict lexicographic order on character sequences, comparing code points;
/// this is the order `str`'s `Ord` gives (UTF-8 byte order equals code point
/// order).
pub open spec fn lex_lt(a: Seq<char>, b: Seq<char>) -> bool
    decreases a.len(),
{
    if a.len() == 0 {
        b.len() > 0
    } else if b.len() == 0 {
        false
    } else if a[0] != b[0] {
        (a[0] as int) < (b[0] as int)
    } else {
        lex_lt(a.drop_first(), b.drop_first())
    }
}

pub proof fn lemma_lex_irreflexive(a: Seq<char>)
    ensures
        !lex_lt(a, a),
    decreases a.len(),
{
    if a.len() > 0 {
        lemma_lex_irreflexive(a.drop_first());
    }
}

pub proof fn lemma_lex_transitive(a: Seq<char>, b: Seq<char>, c: Seq<char>)
    requires
        lex_lt(a, b),
        lex_lt(b, c),
    ensures
        lex_lt(a, c),
    decreases a.len(),
{
    if a.len() > 0 && b.len() > 0 && c.len() > 0 {
        if a[0] == b[0] && b[0] == c[0] {
            lemma_lex_transitive(a.drop_first(), b.drop_first(), c.drop_first());
        }
    }
}

pub proof fn lemma_lex_total(a: Seq<char>, b: Seq<char>)
    ensures
        a == b || lex_lt(a, b) || lex_lt(b, a),
    decreases a.len(),
{
    if a.len() > 0 && b.len() > 0 {
        if a[0] == b[0] {
            lemma_lex_total(a.drop_first(), b.drop_first());
            if a.drop_first() == b.drop_first() {
                assert(a =~= seq![a[0]] + a.drop_first());
                assert(b =~= seq![b[0]] + b.drop_first());
            }
        } else {
        }
    } else if a.len() == 0 && b.len() == 0 {
        assert(a =~= b);
    }
}

proof fn lemma_lex_skip_step(a: Seq<char>, b: Seq<char>, i: int)
    requires
        0 <= i < a.len(),
        i < b.len(),
        a[i] == b[i],
    ensures
        lex_lt(a.skip(i), b.skip(i)) == lex_lt(a.skip(i + 1), b.skip(i + 1)),
{
    assert(a.skip(i).drop_first() =~= a.skip(i + 1));
    assert(b.skip(i).drop_first() =~= b.skip(i + 1));
}

/// `a < b` in lexicographic order.
pub fn chars_less(a: &Vec<char>, b: &Vec<char>) -> (r: bool)
    ensures
        r == lex_lt(a@, b@),
{
    let mut i: usize = 0;
    assert(a@.skip(0) =~= a@);
    assert(b@.skip(0) =~= b@);
    while i < a.len() && i < b.len()
        invariant
            i <= a.len(),
            i <= b.len(),
            lex_lt(a@, b@) == lex_lt(a@.skip(i as int), b@.skip(i as int)),
        decreases a.len() - i,
    {
        if a[i] != b[i] {
            assert(a@.skip(i as int)[0] == a@[i as int]);
            assert(b@.skip(i as int)[0] == b@[i as int]);
            return a[i] < b[i];
        }
        proof {
            lemma_lex_skip_step(a@, b@, i as int);
        }
        i = i + 1;
    }
    i == a.len() && i < b.len()
}

/// `a < b` in lexicographic order, on strings.
pub fn str_less(a: &str, b: &str) -> (r: bool)
    ensures
        r == lex_lt(a@, b@),
{
    let ca = chars_of(a);
    let cb = chars_of(b);
    chars_less(&ca, &cb)
}

// ── Path order on file names ────────────────────────────────────────────────

/// Character order for file names: the separator `/` comes before every
/// other character, the rest compare by code point.  Comparing file names
/// character by character in this order sorts them as `Path` does,
/// component by component, for paths made of plain names (`a/b.rs` comes
/// before `a.rs`, since component `a` comes before `a.rs`).
pub open spec fn path_char_lt(x: char, y: char) -> bool {
    if x == '/' {
        y != '/'
    } else if y == '/' {
        false
    } else {
        (x as int) < (y as int)
    }
}

/// Strict path order on file names.
pub open spec fn path_str_lt(a: Seq<char>, b: Seq<char>) -> bool
    decreases a.len(),
{
    if a.len() == 0 {
        b.len() > 0
    } else if b.len() == 0 {
        false
    } else if a[0] != b[0] {
        path_char_lt(a[0], b[0])
    } else {
        path_str_lt(a.drop_first(), b.drop_first())
    }
}

pub proof fn lemma_path_str_transitive(a: Seq<char>, b: Seq<char>, c: Seq<char>)
    requires
        path_str_lt(a, b),
        path_str_lt(b, c),
    ensures
        path_str_lt(a, c),
    decreases a.len(),
{
    if a.len() > 0 && b.len() > 0 && c.len() > 0 {
        if a[0] == b[0] && b[0] == c[0] {
            lemma_path_str_transitive(a.drop_first(), b.drop_first(), c.drop_first());
        }
    }
}

pub proof fn lemma_path_str_total(a: Seq<char>, b: Seq<char>)
    ensures
        a == b || path_str_lt(a, b) || path_str_lt(b, a),
    decreases a.len(),
{
    if a.len() > 0 && b.len() > 0 {
        if a[0] == b[0] {
            lemma_path_str_total(a.drop_first(), b.drop_first());
            if a.drop_first() == b.drop_first() {
                assert(a =~= seq![a[0]] + a.drop_first());
                assert(b =~= seq![b[0]] + b.drop_first());
            }
        } else {
        }
    } else if a.len() == 0 && b.len() == 0 {
        assert(a =~= b);
    }
}

proof fn lemma_path_str_skip_step(a: Seq<char>, b: Seq<char>, i: int)
    requires
        0 <= i < a.len(),
        i < b.len(),
        a[i] == b[i],
    ensures
        path_str_lt(a.skip(i), b.skip(i)) == path_str_lt(a.skip(i + 1), b.skip(i + 1)),
{
    assert(a.skip(i).drop_first() =~= a.skip(i + 1));
    assert(b.skip(i).drop_first() =~= b.skip(i + 1));
}

/// `a` comes before `b` in path order.
pub fn path_less(a: &str, b: &str) -> (r: bool)
    ensures
        r == path_str_lt(a@, b@),
{
    let ca = chars_of(a);
    let cb = chars_of(b);
    let mut i: usize = 0;
    assert(ca@.skip(0) =~= ca@);
    assert(cb@.skip(0) =~= cb@);
    while i < ca.len() && i < cb.len()
        invariant
            i <= ca.len(),
            i <= cb.len(),
            ca@ == a@,
            cb@ == b@,
            path_str_lt(ca@, cb@) == path_str_lt(ca@.skip(i as int), cb@.skip(i as int)),
        decreases ca.len() - i,
    {
        let x = ca[i];
        let y = cb[i];
        if x != y {
            assert(ca@.skip(i as int)[0] == x);
            assert(cb@.skip(i as int)[0] == y);
            return if x == '/' {
                true
            } else if y == '/' {
                false
            } else {
                x < y
            };
        }
        proof {
            lemma_path_str_skip_step(ca@, cb@, i as int);
        }
        i = i + 1;
    }
    i == ca.len() && i < cb.len()
}

/// Equality of two strings.
pub fn str_eq(a: &String, b: &String) -> (r: bool)
    ensures
        r == (a@ == b@),
{
    a.eq(b)
}

// ── Sorted, de-duplicated lists of names ────────────────────────────────────

/// The views of `v`, in order.
pub open spec fn views(v: Seq<String>) -> Seq<Seq<char>> {
    v.map_values(|s: String| s@)
}

/// `s` is strictly increasing in lexicographic order (so it holds no
/// duplicates).
pub open spec fn strictly_sorted(s: Seq<Seq<char>>) -> bool {
    forall|i: int, j: int| 0 <= i < j < s.len() ==> lex_lt(#[trigger] s[i], #[trigger] s[j])
}

/// Insert `x` into the strictly sorted list `out`, unless it is already there.
fn insert_unique(out: &mut Vec<String>, x: String)
    requires
        strictly_sorted(views(old(out)@)),
    ensures
        strictly_sorted(views(final(out)@)),
        views(final(out)@).to_set() == views(old(out)@).to_set().insert(x@),
{
    let ghost before = views(out@);
    let mut p: usize = 0;
    while p < out.len() && str_less(out[p].as_str(), x.as_str())
        invariant
            p <= out.len(),
            out@ == old(out)@,
            before == views(out@),
            strictly_sorted(before),
            forall|k: int| 0 <= k < p ==> lex_lt(#[trigger] before[k], x@),
        decreases out.len() - p,
    {
        p = p + 1;
    }
    if p < out.len() && str_eq(&out[p], &x) {
        assert(before.to_set().insert(x@) =~= before.to_set()) by {
            assert(before[p as int] == x@);
        }
        return;
    }
    proof {
        if p < out.len() {
            lemma_lex_total(before[p as int], x@);
        }
    }
    out.insert(p, x);
    proof {
        let after = views(out@);
        assert(after =~= before.insert(p as int, x@));
        assert forall|i: int, j: int| 0 <= i < j < after.len() implies lex_lt(
            #[trigger] after[i],
            #[trigger] after[j],
        ) by {
            if i == p && j - 1 > p {
                assert(lex_lt(before[p as int], before[j - 1]));
                lemma_lex_transitive(x@, before[p as int], before[j - 1]);
            } else if i < p && j > p {
                assert(lex_lt(before[i], x@));
                if j - 1 > p {
                    assert(lex_lt(before[p as int], before[j - 1]));
                    lemma_lex_transitive(x@, before[p as int], before[j - 1]);
                }
                lemma_lex_transitive(before[i], x@, before[j - 1]);
            }
        }
        before.insert_ensures(p as int, x@);
        assert(after.to_set() =~= before.to_set().insert(x@)) by {
            assert forall|y: Seq<char>| after.to_set().contains(y) implies before.to_set().insert(
                x@,
            ).contains(y) by {
                let k = choose|k: int| 0 <= k < after.len() && #[trigger] after[k] == y;
                if k < p {
                    assert(before[k] == y);
                } else if k > p {
                    assert(before[k - 1] == y);
                }
            }
            assert forall|y: Seq<char>| before.to_set().insert(x@).contains(y) implies after.to_set().contains(
                y,
            ) by {
                if y == x@ {
                    assert(after[p as int] == y);
                } else {
                    let k = choose|k: int| 0 <= k < before.len() && #[trigger] before[k] == y;
                    if k < p {
                        assert(after[k] == y);
                    } else {
                        assert(after[k + 1] == y);
                    }
                }
            }
        }
    }
}

/// A non-empty sequence's set is its first element added to the rest's set.
pub proof fn lemma_to_set_drop_first<A>(s: Seq<A>)
    requires
        s.len() > 0,
    ensures
        s.to_set() == s.drop_first().to_set().insert(s[0]),
{
    assert forall|y: A| s.to_set().contains(y) implies s.drop_first().to_set().insert(s[0]).contains(y) by {
        let k = choose|k: int| 0 <= k < s.len() && #[trigger] s[k] == y;
        if k > 0 {
            assert(s.drop_first()[k - 1] == y);
        }
    }
    assert forall|y: A| s.drop_first().to_set().insert(s[0]).contains(y) implies s.to_set().contains(y) by {
        if y == s[0] {
            assert(s[0] == y);
        } else {
            let k = choose|k: int| 0 <= k < s.drop_first().len() && #[trigger] s.drop_first()[k] == y;
            assert(s[k + 1] == y);
        }
    }
    assert(s.to_set() =~= s.drop_first().to_set().insert(s[0]));
}

/// The names of `v`, sorted lexicographically with duplicates removed.
pub fn sort_dedup(v: Vec<String>) -> (out: Vec<String>)
    ensures
        strictly_sorted(views(out@)),
        views(out@).to_set() == views(v@).to_set(),
{
    let mut out: Vec<String> = Vec::new();
    let n = v.len();
    let mut rest = v;
    let ghost all = views(rest@);
    // Work from the back so that elements can be moved out with `pop`.
    assert(views(out@).to_set() =~= all.skip(n as int).to_set());
    while rest.len() > 0
        invariant
            rest.len() <= n,
            n == all.len(),
            views(rest@) == all.take(rest.len() as int),
            strictly_sorted(views(out@)),
            views(out@).to_set() == all.skip(rest.len() as int).to_set(),
        decreases rest.len(),
    {
        let ghost m = rest.len() as int;
        let ghost before_rest = rest@;
        let x = rest.pop().unwrap();
        assert(x@ == all[m - 1]) by {
            assert(views(before_rest)[m - 1] == x@);
        }
        let ghost prev = views(out@);
        insert_unique(&mut out, x);
        proof {
            assert(views(rest@) =~= all.take(m - 1));
            assert(all.skip(m - 1) =~= seq![all[m - 1]] + all.skip(m));
            assert(all.skip(m - 1).drop_first() =~= all.skip(m));
            lemma_to_set_drop_first(all.skip(m - 1));
        }
    }
    assert(all.skip(0) =~= all);
    out
}

// ── Case folding and substring search ───────────────────────────────────────

/// What `str::to_lowercase` returns for a string with a character outside
/// ASCII: its Unicode lowercase mapping, character by character, with the
/// context rule for final sigma.
pub uninterp spec fn spec_to_lowercase(s: Seq<char>) -> Seq<char>;

/// Every character is ASCII.
pub open spec fn all_ascii(s: Seq<char>) -> bool {
    forall|i: int| 0 <= i < s.len() ==> (#[trigger] s[i] as u32) < 128
}

/// `A`–`Z` lowered to `a`–`z`; every other character kept.
pub open spec fn ascii_lower_char(c: char) -> char {
    if 'A' <= c && c <= 'Z' {
        ((c as u32) + 32) as char
    } else {
        c
    }
}

/// Each character of `s` lowered as `ascii_lower_char` does.
pub open spec fn ascii_lower(s: Seq<char>) -> Seq<char> {
    s.map_values(|c: char| ascii_lower_char(c))
}

/// The lowercase form of a string: on ASCII, `A`–`Z` lowered and the rest
/// kept; otherwise the Unicode mapping `spec_to_lowercase` names.
pub open spec fn lowercase(s: Seq<char>) -> Seq<char> {
    if all_ascii(s) {
        ascii_lower(s)
    } else {
        spec_to_lowercase(s)
    }
}

/// Calls `str::to_lowercase`.  Claimed: on an ASCII string it lowers `A`–`Z`
/// and keeps every other character, as std documents; otherwise its result
/// is a function of the argument's characters alone, named
/// `spec_to_lowercase`, the Unicode mapping not being written out here.
#[verifier::external_body]
pub(crate) fn to_lowercase(s: &str) -> (r: String)
    ensures
        all_ascii(s@) ==> r@ == ascii_lower(s@),
        !all_ascii(s@) ==> r@ == spec_to_lowercase(s@),
{
    s.to_lowercase()
}

/// `needle` occurs as a contiguous run of characters in `hay`.
pub open spec fn seq_contains(hay: Seq<char>, needle: Seq<char>) -> bool {
    exists|i: int|
        0 <= i && i + needle.len() <= hay.len() && #[trigger] hay.subrange(i, i + needle.len())
            == needle
}

/// Whether `needle` occurs at position `at` of `hay`.
fn occurs_at(hay: &Vec<char>, needle: &Vec<char>, at: usize) -> (r: bool)
    requires
        at + needle.len() <= hay.len(),
    ensures
        r == (hay@.subrange(at as int, at + needle.len()) == needle@),
{
    let mut k: usize = 0;
    while k < needle.len()
        invariant
            k <= needle.len(),
            at + needle.len() <= hay.len(),
            forall|j: int| 0 <= j < k ==> hay@[at + j] == needle@[j],
        decreases needle.len() - k,
    {
        if hay[at + k] != needle[k] {
            assert(hay@.subrange(at as int, at + needle.len())[k as int] != needle@[k as int]);
            return false;
        }
        k = k + 1;
    }
    assert(hay@.subrange(at as int, at + needle.len()) =~= needle@);
    true
}

/// Whether `needle` occurs in `hay`.
pub fn chars_contain(hay: &Vec<char>, needle: &Vec<char>) -> (r: bool)
    ensures
        r == seq_contains(hay@, needle@),
{
    if needle.len() == 0 {
        assert(hay@.subrange(0int, 0int + needle@.len()) =~= needle@);
        return true;
    }
    if needle.len() > hay.len() {
        return false;
    }
    let last = hay.len() - needle.len();
    let mut i: usize = 0;
    while i <= last
        invariant
            last + needle.len() == hay.len(),
            needle.len() >= 1,
            forall|j: int|
                0 <= j < i ==> #[trigger] hay@.subrange(j, j + needle.len()) != needle@,
        decreases last + 1 - i,
    {
        if occurs_at(hay, needle, i) {
            return true;
        }
        i = i + 1;
    }
    false
}

/// Whether `needle` occurs in `hay`, ignoring case as `to_lowercase` folds it.
pub fn contains_ignoring_case(hay: &str, needle: &str) -> (r: bool)
    ensures
        r == seq_contains(lowercase(hay@), lowercase(needle@)),
{
    let h = to_lowercase(hay);
    let n = to_lowercase(needle);
    let hc = chars_of(h.as_str());
    let nc = chars_of(n.as_str());
    chars_contain(&hc, &nc)
}

// ── Paths held as strings ───────────────────────────────────────────────────

/// `path` ends with `suffix` at a component boundary: the whole path, or the
/// part after a `/`. An empty suffix matches every path.
pub open spec fn path_ends_with(path: Seq<char>, suffix: Seq<char>) -> bool {
    suffix.len() == 0 || path == suffix || (suffix.len() < path.len() && path[path.len()
        - suffix.len() - 1] == '/' && path.subrange(path.len() - suffix.len(), path.len() as int)
        == suffix)
}

/// Whether `path` ends with `suffix` at a component boundary.
pub fn ends_with_component(path: &str, suffix: &str) -> (r: bool)
    ensures
        r == path_ends_with(path@, suffix@),
{
    let p = chars_of(path);
    let s = chars_of(suffix);
    if s.len() == 0 {
        return true;
    }
    if s.len() > p.len() {
        return false;
    }
    let start = p.len() - s.len();
    let tail_eq = occurs_at(&p, &s, start);
    if s.len() == p.len() {
        proof {
            assert(p@.subrange(0, p@.len() as int) =~= p@);
        }
        return tail_eq;
    }
    proof {
        if p@ == s@ {
            assert(false);
        }
    }
    tail_eq && p[start - 1] == '/'
}

/// Index of the last occurrence of `c` in `s`, or -1.
pub open spec fn last_index_of(s: Seq<char>, c: char) -> int
    decreases s.len(),
{
    if s.len() == 0 {
        -1
    } else if s.last() == c {
        s.len() - 1
    } else {
        last_index_of(s.drop_last(), c)
    }
}

proof fn lemma_last_index_of_bounds(s: Seq<char>, c: char)
    ensures
        -1 <= last_index_of(s, c) < s.len(),
        last_index_of(s, c) >= 0 ==> s[last_index_of(s, c)] == c,
    decreases s.len(),
{
    if s.len() > 0 && s.last() != c {
        lemma_last_index_of_bounds(s.drop_last(), c);
    }
}

fn find_last(s: &Vec<char>, c: char) -> (r: Option<usize>)
    ensures
        r matches Some(k) ==> k == last_index_of(s@, c),
        r is None ==> last_index_of(s@, c) == -1,
{
    let mut i: usize = s.len();
    assert(s@.take(i as int) =~= s@);
    while i > 0
        invariant
            i <= s.len(),
            last_index_of(s@, c) == last_index_of(s@.take(i as int), c),
        decreases i,
    {
        if s[i - 1] == c {
            return Some(i - 1);
        }
        assert(s@.take(i as int).drop_last() =~= s@.take(i - 1));
        i = i - 1;
    }
    None
}

/// The last component of a `/`-separated path.
pub open spec fn file_name_of(p: Seq<char>) -> Seq<char> {
    p.subrange(last_index_of(p, '/') + 1, p.len() as int)
}

/// What `Path::file_stem` gives for a file path: the file name without its
/// last extension; a name whose only dot is its first character is kept
/// whole; an empty name and `..` have no stem.
pub open spec fn spec_file_stem(p: Seq<char>) -> Option<Seq<char>> {
    let name = file_name_of(p);
    if name.len() == 0 || name == ".."@ {
        None
    } else if last_index_of(name, '.') <= 0 {
        Some(name)
    } else {
        Some(name.take(last_index_of(name, '.')))
    }
}

/// Collect `s[from..to]` into a string.
fn collect_range(s: &Vec<char>, from: usize, to: usize) -> (r: String)
    requires
        from <= to <= s.len(),
    ensures
        r@ == s@.subrange(from as int, to as int),
{
    let mut out = String::new();
    let mut i = from;
    while i < to
        invariant
            from <= i <= to <= s.len(),
            out@ == s@.subrange(from as int, i as int),
        decreases to - i,
    {
        let mut one = String::new();
        push_char(&mut one, s[i]);
        out.append(one.as_str());
        assert(s@.subrange(from as int, i + 1) =~= s@.subrange(from as int, i as int).push(s@[i as int]));
        i = i + 1;
    }
    out
}

/// Appends one character to a string (`String::push`).
#[verifier::external_body]
fn push_char(s: &mut String, c: char)
    ensures
        final(s)@ == old(s)@.push(c),
{
    s.push(c)
}

/// The file stem of a `/`-separated path, as `Path::file_stem` gives it.
pub fn file_stem(path: &str) -> (r: Option<String>)
    ensures
        r matches Some(x) ==> spec_file_stem(path@) == Some(x@),
        r is None ==> spec_file_stem(path@) is None,
{
    let p = chars_of(path);
    let slash = find_last(&p, '/');
    proof {
        lemma_last_index_of_bounds(p@, '/');
    }
    let start: usize = match slash {
        Some(k) => k + 1,
        None => 0,
    };
    let name = collect_range(&p, start, p.len());
    let nc = chars_of(name.as_str());
    assert(nc@ == file_name_of(p@));
    if nc.len() == 0 {
        return None;
    }
    if nc.len() == 2 && nc[0] == '.' && nc[1] == '.' {
        assert(nc@ =~= ".."@) by {
            reveal_strlit("..");
        }
        return None;
    }
    proof {
        reveal_strlit("..");
        if nc@ == ".."@ {
            assert(nc@.len() == 2);
        }
    }
    let dot = find_last(&nc, '.');
    proof {
        lemma_last_index_of_bounds(nc@, '.');
    }
    match dot {
        Some(d) if d > 0 => Some(collect_range(&nc, 0, d)),
        _ => Some(name),
    }
}

// ── Lexicographic order on sequences of names ───────────────────────────────

/// Strict lexicographic order on sequences of names, comparing names
/// lexicographically (the order `Vec<String>`'s `Ord` gives).
pub open spec fn path_lt(a: Seq<Seq<char>>, b: Seq<Seq<char>>) -> bool
    decreases a.len(),
{
    if a.len() == 0 {
        b.len() > 0
    } else if b.len() == 0 {
        false
    } else if a[0] != b[0] {
        lex_lt(a[0], b[0])
    } else {
        path_lt(a.drop_first(), b.drop_first())
    }
}

/// `s` is strictly increasing in `path_lt` order.
pub open spec fn paths_strictly_sorted(s: Seq<Seq<Seq<char>>>) -> bool {
    forall|i: int, j: int| 0 <= i < j < s.len() ==> path_lt(#[trigger] s[i], #[trigger] s[j])
}

/// The views of a list of name lists.
pub open spec fn path_views(v: Seq<Vec<String>>) -> Seq<Seq<Seq<char>>> {
    v.map_values(|p: Vec<String>| views(p@))
}

pub proof fn lemma_path_transitive(a: Seq<Seq<char>>, b: Seq<Seq<char>>, c: Seq<Seq<char>>)
    requires
        path_lt(a, b),
        path_lt(b, c),
    ensures
        path_lt(a, c),
    decreases a.len(),
{
    if a.len() > 0 && b.len() > 0 && c.len() > 0 {
        if a[0] == b[0] && b[0] == c[0] {
            lemma_path_transitive(a.drop_first(), b.drop_first(), c.drop_first());
        } else if a[0] != b[0] && b[0] != c[0] {
            lemma_lex_transitive(a[0], b[0], c[0]);
            if a[0] == c[0] {
                lemma_lex_irreflexive(a[0]);
            }
        }
    }
}

pub proof fn lemma_path_total(a: Seq<Seq<char>>, b: Seq<Seq<char>>)
    ensures
        a == b || path_lt(a, b) || path_lt(b, a),
    decreases a.len(),
{
    if a.len() > 0 && b.len() > 0 {
        if a[0] == b[0] {
            lemma_path_total(a.drop_first(), b.drop_first());
            if a.drop_first() == b.drop_first() {
                assert(a =~= seq![a[0]] + a.drop_first());
                assert(b =~= seq![b[0]] + b.drop_first());
            }
        } else {
            lemma_lex_total(a[0], b[0]);
        }
    } else if a.len() == 0 && b.len() == 0 {
        assert(a =~= b);
    }
}

proof fn lemma_path_skip_step(a: Seq<Seq<char>>, b: Seq<Seq<char>>, i: int)
    requires
        0 <= i < a.len(),
        i < b.len(),
        a[i] == b[i],
    ensures
        path_lt(a.skip(i), b.skip(i)) == path_lt(a.skip(i + 1), b.skip(i + 1)),
{
    assert(a.skip(i).drop_first() =~= a.skip(i + 1));
    assert(b.skip(i).drop_first() =~= b.skip(i + 1));
}

/// `a < b` in lexicographic order of name lists.
pub fn names_less(a: &Vec<String>, b: &Vec<String>) -> (r: bool)
    ensures
        r == path_lt(views(a@), views(b@)),
{
    let ghost va = views(a@);
    let ghost vb = views(b@);
    let mut i: usize = 0;
    assert(va.skip(0) =~= va);
    assert(vb.skip(0) =~= vb);
    while i < a.len() && i < b.len()
        invariant
            i <= a.len(),
            i <= b.len(),
            va == views(a@),
            vb == views(b@),
            path_lt(va, vb) == path_lt(va.skip(i as int), vb.skip(i as int)),
        decreases a.len() - i,
    {
        assert(va[i as int] == a@[i as int]@);
        assert(vb[i as int] == b@[i as int]@);
        if !str_eq(&a[i], &b[i]) {
            assert(va.skip(i as int)[0] == va[i as int]);
            assert(vb.skip(i as int)[0] == vb[i as int]);
            return str_less(a[i].as_str(), b[i].as_str());
        }
        proof {
            lemma_path_skip_step(va, vb, i as int);
        }
        i = i + 1;
    }
    i == a.len() && i < b.len()
}

/// Whether two name lists are equal.
pub fn names_equal(a: &Vec<String>, b: &Vec<String>) -> (r: bool)
    ensures
        r == (views(a@) == views(b@)),
{
    if a.len() != b.len() {
        assert(views(a@).len() != views(b@).len());
        return false;
    }
    let mut i: usize = 0;
    while i < a.len()
        invariant
            i <= a.len(),
            a.len() == b.len(),
            forall|k: int| 0 <= k < i ==> #[trigger] views(a@)[k] == views(b@)[k],
        decreases a.len() - i,
    {
        if !str_eq(&a[i], &b[i]) {
            assert(views(a@)[i as int] != views(b@)[i as int]);
            return false;
        }
        i = i + 1;
    }
    assert(views(a@) =~= views(b@));
    true
}

/// Insert `x` into the strictly sorted list `out`, unless it is already there.
fn insert_unique_path(out: &mut Vec<Vec<String>>, x: Vec<String>)
    requires
        paths_strictly_sorted(path_views(old(out)@)),
    ensures
        paths_strictly_sorted(path_views(final(out)@)),
        path_views(final(out)@).to_set() == path_views(old(out)@).to_set().insert(views(x@)),
{
    let ghost before = path_views(out@);
    let ghost xv = views(x@);
    let mut p: usize = 0;
    while p < out.len() && names_less(&out[p], &x)
        invariant
            p <= out.len(),
            out@ == old(out)@,
            before == path_views(out@),
            xv == views(x@),
            paths_strictly_sorted(before),
            forall|k: int| 0 <= k < p ==> path_lt(#[trigger] before[k], xv),
        decreases out.len() - p,
    {
        p = p + 1;
    }
    if p < out.len() && names_equal(&out[p], &x) {
        assert(before.to_set().insert(xv) =~= before.to_set()) by {
            assert(before[p as int] == xv);
        }
        return;
    }
    proof {
        if p < out.len() {
            lemma_path_total(before[p as int], xv);
        }
    }
    out.insert(p, x);
    proof {
        let after = path_views(out@);
        assert(after =~= before.insert(p as int, xv));
        before.insert_ensures(p as int, xv);
        assert forall|m: int| p <= m < before.len() implies path_lt(xv, #[trigger] before[m]) by {
            if m > p {
                assert(path_lt(before[p as int], before[m]));
                lemma_path_transitive(xv, before[p as int], before[m]);
            }
        }
        assert forall|i: int, j: int| 0 <= i < j < after.len() implies path_lt(
            #[trigger] after[i],
            #[trigger] after[j],
        ) by {
            if i < p && j > p {
                assert(path_lt(xv, before[j - 1]));
                lemma_path_transitive(before[i], xv, before[j - 1]);
            } else if i == p {
                assert(path_lt(xv, before[j - 1]));
            } else if i > p {
                assert(path_lt(before[i - 1], before[j - 1]));
            }
        }
        assert(after.to_set() =~= before.to_set().insert(xv)) by {
            assert forall|y: Seq<Seq<char>>| after.to_set().contains(y) implies before.to_set().insert(xv).contains(y) by {
                let k = choose|k: int| 0 <= k < after.len() && #[trigger] after[k] == y;
                if k < p {
                    assert(before[k] == y);
                } else if k > p {
                    assert(before[k - 1] == y);
                }
            }
            assert forall|y: Seq<Seq<char>>| before.to_set().insert(xv).contains(y) implies after.to_set().contains(y) by {
                if y == xv {
                    assert(after[p as int] == y);
                } else {
                    let k = choose|k: int| 0 <= k < before.len() && #[trigger] before[k] == y;
                    if k < p {
                        assert(after[k] == y);
                    } else {
                        assert(after[k + 1] == y);
                    }
                }
            }
        }
    }
}

/// The name lists of `v`, sorted lexicographically with duplicates removed.
pub fn sort_dedup_paths(v: Vec<Vec<String>>) -> (out: Vec<Vec<String>>)
    ensures
        paths_strictly_sorted(path_views(out@)),
        path_views(out@).to_set() == path_views(v@).to_set(),
{
    let mut out: Vec<Vec<String>> = Vec::new();
    let n = v.len();
    let mut rest = v;
    let ghost all = path_views(rest@);
    assert(path_views(out@).to_set() =~= all.skip(n as int).to_set());
    while rest.len() > 0
        invariant
            rest.len() <= n,
            n == all.len(),
            path_views(rest@) == all.take(rest.len() as int),
            paths_strictly_sorted(path_views(out@)),
            path_views(out@).to_set() == all.skip(rest.len() as int).to_set(),
        decreases rest.len(),
    {
        let ghost m = rest.len() as int;
        let ghost before_rest = rest@;
        let x = rest.pop().unwrap();
        assert(views(x@) == all[m - 1]) by {
            assert(path_views(before_rest)[m - 1] == views(x@));
        }
        insert_unique_path(&mut out, x);
        proof {
            assert(path_views(rest@) =~= all.take(m - 1));
            assert(all.skip(m - 1).drop_first() =~= all.skip(m));
            lemma_to_set_drop_first(all.skip(m - 1));
        }
    }
    assert(all.skip(0) =~= all);
    out
}

// ── Relative paths ──────────────────────────────────────────────────────────

/// Where the `/`-free run of characters that starts at `i` ends.
pub open spec fn seg_end(s: Seq<char>, i: int) -> int
    decreases s.len() - i,
{
    if i < 0 || i >= s.len() || s[i] == '/' {
        i
    } else {
        seg_end(s, i + 1)
    }
}

/// The names of the components of `s` from position `i` on, as `Path`
/// splits them: runs between separators, with empty runs and `.` dropped,
/// except a `.` that starts a relative path (`first`).
pub open spec fn comps_from(s: Seq<char>, i: int, first: bool) -> Seq<Seq<char>>
    decreases s.len() - i, 1int,
{
    if i < 0 || i >= s.len() {
        Seq::empty()
    } else if s[i] == '/' {
        comps_from(s, i + 1, false)
    } else {
        proof {
            lemma_seg_end_after(s, i);
        }
        let e = seg_end(s, i);
        let seg = s.subrange(i, e);
        if seg == "."@ && !first {
            comps_from(s, e, false)
        } else {
            seq![seg] + comps_from(s, e, false)
        }
    }
}

pub proof fn lemma_seg_end_after(s: Seq<char>, i: int)
    requires
        0 <= i < s.len(),
        s[i] != '/',
    ensures
        i < seg_end(s, i) <= s.len(),
        forall|k: int| i <= k < seg_end(s, i) ==> s[k] != '/',
        seg_end(s, i) < s.len() ==> s[seg_end(s, i)] == '/',
    decreases s.len() - i,
{
    assert(seg_end(s, i) == seg_end(s, i + 1));
    if i + 1 < s.len() && s[i + 1] != '/' {
        lemma_seg_end_after(s, i + 1);
    } else {
        assert(seg_end(s, i + 1) == i + 1);
    }
}

/// The components of a `/`-separated path, as `Path::components` gives
/// them for a path without `..` handling: `/` for a root, then the names.
pub open spec fn path_components(s: Seq<char>) -> Seq<Seq<char>> {
    if s.len() > 0 && s[0] == '/' {
        seq!["/"@] + comps_from(s, 1, false)
    } else {
        comps_from(s, 0, true)
    }
}

/// Names joined with `/`.
pub open spec fn join_components(cs: Seq<Seq<char>>) -> Seq<char>
    decreases cs.len(),
{
    if cs.len() == 0 {
        Seq::empty()
    } else if cs.len() == 1 {
        cs[0]
    } else {
        join_components(cs.drop_last()) + "/"@ + cs.last()
    }
}

/// What `Path::strip_prefix` gives: when the components of `root` are the
/// leading components of `p`, the rest of `p`'s components, joined with
/// `/`; `None` otherwise.  An empty `root` leaves `p` as it is.
pub open spec fn spec_strip_prefix(p: Seq<char>, root: Seq<char>) -> Option<Seq<char>> {
    let cp = path_components(p);
    let cr = path_components(root);
    if cr.len() == 0 {
        Some(p)
    } else if cr.len() <= cp.len() && cp.take(cr.len() as int) == cr {
        Some(join_components(cp.skip(cr.len() as int)))
    } else {
        None
    }
}

/// `path` relative to `root` when `root`'s components lead `path`'s, else
/// `path` itself.
pub open spec fn spec_relative(p: Seq<char>, root: Seq<char>) -> Seq<char> {
    match spec_strip_prefix(p, root) {
        Some(rest) => rest,
        None => p,
    }
}

/// The path starts at the filesystem root.
pub open spec fn is_absolute(p: Seq<char>) -> bool {
    p.len() > 0 && p[0] == '/'
}

/// The path's first component is `.` (as in `./src`).
pub open spec fn starts_with_dot(p: Seq<char>) -> bool {
    p.len() >= 1 && p[0] == '.' && (p.len() == 1 || p[1] == '/')
}

/// A run ends where it ends in `s`, however far `s` is shifted.
proof fn lemma_seg_end_shift(p: Seq<char>, s: Seq<char>, j: int)
    requires
        0 <= j <= s.len(),
    ensures
        seg_end(p + s, p.len() + j) == p.len() + seg_end(s, j),
    decreases s.len() - j,
{
    let x = p + s;
    if j < s.len() {
        assert(x[p.len() + j] == s[j]);
        if s[j] != '/' {
            lemma_seg_end_shift(p, s, j + 1);
        }
    }
}

/// Components read from a shifted position are those of the unshifted text.
proof fn lemma_comps_shift(p: Seq<char>, s: Seq<char>, j: int, first: bool)
    requires
        0 <= j <= s.len(),
    ensures
        comps_from(p + s, p.len() + j, first) == comps_from(s, j, first),
    decreases s.len() - j,
{
    let x = p + s;
    if j < s.len() {
        assert(x[p.len() + j] == s[j]);
        if s[j] == '/' {
            lemma_comps_shift(p, s, j + 1, false);
        } else {
            lemma_seg_end_after(s, j);
            lemma_seg_end_shift(p, s, j);
            let e = seg_end(s, j);
            assert(x.subrange(p.len() + j, p.len() + e) =~= s.subrange(j, e));
            lemma_comps_shift(p, s, e, false);
        }
    }
}

/// Before the separator that joins `a` to `b`, runs end where they end in `a`.
proof fn lemma_seg_end_joined(a: Seq<char>, b: Seq<char>, i: int)
    requires
        0 <= i <= a.len(),
    ensures
        seg_end(a + "/"@ + b, i) == seg_end(a, i),
    decreases a.len() - i,
{
    reveal_strlit("/");
    let x = a + "/"@ + b;
    assert(x[a.len() as int] == '/');
    if i < a.len() {
        assert(x[i] == a[i]);
        if a[i] != '/' {
            lemma_seg_end_joined(a, b, i + 1);
        }
    }
}

/// The components of `a/b` from a position within `a` are `a`'s from there,
/// then `b`'s (none of which is a leading `.`).
proof fn lemma_comps_joined(a: Seq<char>, b: Seq<char>, i: int)
    requires
        0 <= i <= a.len(),
    ensures
        comps_from(a + "/"@ + b, i, false) == comps_from(a, i, false) + comps_from(b, 0, false),
    decreases a.len() - i,
{
    reveal_strlit("/");
    let x = a + "/"@ + b;
    assert(x[a.len() as int] == '/');
    if i == a.len() {
        assert(x == (a + "/"@) + b);
        lemma_comps_shift(a + "/"@, b, 0, false);
        assert(comps_from(a, i, false) =~= Seq::<Seq<char>>::empty());
        assert(comps_from(a, i, false) + comps_from(b, 0, false) =~= comps_from(b, 0, false));
    } else {
        assert(x[i] == a[i]);
        if a[i] == '/' {
            lemma_comps_joined(a, b, i + 1);
        } else {
            lemma_seg_end_after(a, i);
            lemma_seg_end_joined(a, b, i);
            let e = seg_end(a, i);
            assert(x.subrange(i, e) =~= a.subrange(i, e));
            lemma_comps_joined(a, b, e);
            let seg = a.subrange(i, e);
            if !(seg == "."@) {
                assert(seq![seg] + comps_from(a, e, false) + comps_from(b, 0, false) =~= seq![seg]
                    + (comps_from(a, e, false) + comps_from(b, 0, false)));
            }
        }
    }
}

/// The components of an absolute `root` joined to a relative `rel` are
/// `root`'s, then `rel`'s.
pub proof fn lemma_path_components_joined(root: Seq<char>, rel: Seq<char>)
    requires
        is_absolute(root),
        !is_absolute(rel),
        !starts_with_dot(rel),
    ensures
        path_components(root + "/"@ + rel) == path_components(root) + path_components(rel),
{
    reveal_strlit("/");
    reveal_strlit(".");
    let x = root + "/"@ + rel;
    assert(x[0] == '/');
    lemma_comps_joined(root, rel, 1);
    if rel.len() > 0 {
        lemma_seg_end_after(rel, 0);
        let e = seg_end(rel, 0);
        if rel.subrange(0, e) == "."@ {
            assert(rel.subrange(0, e).len() == 1);
            assert("."@[0] == '.');
            assert(rel.subrange(0, e)[0] == rel[0]);
            assert(rel[0] == '.');
            if rel.len() > 1 {
                assert(rel[1] == '/');
            }
        }
    }
    assert(seq!["/"@] + comps_from(root, 1, false) + comps_from(rel, 0, false) =~= seq!["/"@] + (
    comps_from(root, 1, false) + comps_from(rel, 0, false)));
}

/// The components of `s`, as `path_components` gives them.
pub(crate) fn components(s: &str) -> (out: Vec<String>)
    ensures
        views(out@) == path_components(s@),
{
    let c = chars_of(s);
    let ghost sv = c@;
    let mut out: Vec<String> = Vec::new();
    let mut i: usize = 0;
    let mut first = true;
    if c.len() > 0 && c[0] == '/' {
        out.push("/".to_owned());
        i = 1;
        first = false;
        proof {
            reveal_strlit("/");
            assert(views(out@) =~= seq!["/"@]);
        }
    } else {
        assert(views(out@) =~= Seq::<Seq<char>>::empty());
    }
    while i < c.len()
        invariant
            sv == c@,
            sv == s@,
            i <= c.len(),
            views(out@) + comps_from(sv, i as int, first) == path_components(sv),
        decreases c.len() - i,
    {
        if c[i] == '/' {
            i = i + 1;
            first = false;
        } else {
            proof {
                lemma_seg_end_after(sv, i as int);
            }
            let mut e = i;
            while e < c.len() && c[e] != '/'
                invariant
                    sv == c@,
                    i <= e <= c.len(),
                    i < c.len(),
                    sv[i as int] != '/',
                    seg_end(sv, i as int) == seg_end(sv, e as int),
                decreases c.len() - e,
            {
                e = e + 1;
            }
            assert(seg_end(sv, i as int) == e);
            let seg = collect_range(&c, i, e);
            let is_dot = e == i + 1 && c[i] == '.';
            proof {
                reveal_strlit(".");
                if is_dot {
                    assert(seg@ =~= "."@);
                } else if seg@ == "."@ {
                    assert(seg@.len() == 1);
                    assert(e == i + 1);
                    assert(seg@[0] == c@[i as int]);
                    assert(false);
                }
            }
            let ghost before = out@;
            proof {
                if seg@ == "."@ && !first {
                    assert(comps_from(sv, i as int, first) == comps_from(sv, e as int, false));
                } else {
                    assert(comps_from(sv, i as int, first) == seq![seg@] + comps_from(sv, e as int, false));
                }
            }
            if !(is_dot && !first) {
                out.push(seg);
                proof {
                    assert(views(out@) =~= views(before).push(seg@));
                    assert(views(before) + comps_from(sv, i as int, first) =~= views(out@) + comps_from(
                        sv,
                        e as int,
                        false,
                    ));
                }
            }
            i = e;
            first = false;
        }
    }
    assert(views(out@) + Seq::<Seq<char>>::empty() =~= views(out@));
    out
}

/// `cs` joined with `/`.
pub(crate) fn join_strings(cs: &Vec<String>, from: usize) -> (r: String)
    requires
        from <= cs.len(),
    ensures
        r@ == join_components(views(cs@).skip(from as int)),
{
    let ghost all = views(cs@).skip(from as int);
    let mut r = String::new();
    let mut k: usize = from;
    assert(all.take(0) =~= Seq::<Seq<char>>::empty());
    while k < cs.len()
        invariant
            from <= k <= cs.len(),
            all == views(cs@).skip(from as int),
            r@ == join_components(all.take(k - from)),
        decreases cs.len() - k,
    {
        let ghost t = all.take(k - from + 1);
        assert(t.drop_last() =~= all.take(k - from));
        assert(t.last() == cs@[k as int]@);
        if k > from {
            r.append("/");
            proof {
                reveal_strlit("/");
            }
        } else {
            assert(r@ =~= Seq::<char>::empty());
            assert(t.len() == 1);
        }
        r.append(cs[k].as_str());
        proof {
            if k > from {
                assert(r@ =~= join_components(t.drop_last()) + "/"@ + t.last());
            } else {
                assert(r@ =~= t[0]);
            }
        }
        k = k + 1;
    }
    assert(all.take(cs.len() - from) =~= all);
    r
}

/// `path` relative to `root`, or `path` itself when `root`'s components do
/// not lead `path`'s.
pub fn relative_to(path: &str, root: &str) -> (r: String)
    ensures
        r@ == spec_relative(path@, root@),
{
    let cp = components(path);
    let cr = components(root);
    if cr.len() == 0 {
        return path.to_owned();
    }
    if cr.len() > cp.len() {
        return path.to_owned();
    }
    let mut k: usize = 0;
    while k < cr.len()
        invariant
            k <= cr.len() <= cp.len(),
            cr.len() > 0,
            views(cp@) == path_components(path@),
            views(cr@) == path_components(root@),
            forall|j: int| 0 <= j < k ==> views(cp@)[j] == views(cr@)[j],
        decreases cr.len() - k,
    {
        if !str_eq(&cp[k], &cr[k]) {
            proof {
                assert(views(cp@)[k as int] != views(cr@)[k as int]);
                assert(views(cp@).take(cr.len() as int)[k as int] != views(cr@)[k as int]);
                assert(views(cp@).take(cr.len() as int) != views(cr@));
            }
            return path.to_owned();
        }
        k = k + 1;
    }
    assert(views(cp@).take(cr.len() as int) =~= views(cr@));
    join_strings(&cp, cr.len())
}

} // verus!
