//! Character-sequence primitives shared by the parser and the serializer:
//! whitespace trimming, first-occurrence search, and line splitting, each as
//! a spec function with a verified executable counterpart.

use vstd::prelude::*;

verus! {

/// A whitespace character: the Unicode White_Space set, as `str::trim` sees it.
pub open spec fn is_space(c: char) -> bool {
    let u = c as u32;
    ||| u == 0x20
    ||| (0x09 <= u && u <= 0x0D)
    ||| u == 0x85
    ||| u == 0xA0
    ||| u == 0x1680
    ||| (0x2000 <= u && u <= 0x200A)
    ||| u == 0x2028
    ||| u == 0x2029
    ||| u == 0x202F
    ||| u == 0x205F
    ||| u == 0x3000
}

/// `s` with its leading whitespace removed.
pub open spec fn trim_start(s: Seq<char>) -> Seq<char>
    decreases s.len(),
{
    if s.len() > 0 && is_space(s[0]) {
        trim_start(s.drop_first())
    } else {
        s
    }
}

/// `s` with its trailing whitespace removed.
pub open spec fn trim_end(s: Seq<char>) -> Seq<char>
    decreases s.len(),
{
    if s.len() > 0 && is_space(s[s.len() - 1]) {
        trim_end(s.drop_last())
    } else {
        s
    }
}

/// `s` with leading and trailing whitespace removed.
pub open spec fn trim(s: Seq<char>) -> Seq<char> {
    trim_end(trim_start(s))
}

/// Index of the first occurrence of `c` in `s`, if any.
pub open spec fn find_char(s: Seq<char>, c: char) -> Option<int>
    decreases s.len(),
{
    if s.len() == 0 {
        None
    } else if s[0] == c {
        Some(0int)
    } else {
        match find_char(s.drop_first(), c) {
            Some(i) => Some(i + 1),
            None => None,
        }
    }
}

/// A `find_char` result is an in-range index of `c`.
pub proof fn lemma_find_char_bounds(s: Seq<char>, c: char)
    ensures
        find_char(s, c) matches Some(i) ==> 0 <= i < s.len() && s[i] == c,
    decreases s.len(),
{
    if s.len() > 0 && s[0] != c {
        lemma_find_char_bounds(s.drop_first(), c);
    }
}

/// `s` split at `'\n'` terminators, the way `str::lines` does it: a trailing
/// terminator closes the last line rather than opening an empty one.
pub open spec fn split_lines(s: Seq<char>) -> Seq<Seq<char>>
    decreases s.len(),
    via split_lines_decreases
{
    if s.len() == 0 {
        Seq::empty()
    } else {
        match find_char(s, '\n') {
            Some(i) => seq![s.subrange(0, i)] + split_lines(s.subrange(i + 1, s.len() as int)),
            None => seq![s],
        }
    }
}

#[via_fn]
proof fn split_lines_decreases(s: Seq<char>) {
    lemma_find_char_bounds(s, '\n');
}

/// The concatenation of `lines`, each followed by one `'\n'`.
pub open spec fn lines_text(lines: Seq<Seq<char>>) -> Seq<char>
    decreases lines.len(),
{
    if lines.len() == 0 {
        Seq::empty()
    } else {
        lines[0] + seq!['\n'] + lines_text(lines.drop_first())
    }
}

/// `l` holds no line terminator.
pub open spec fn no_nl(l: Seq<char>) -> bool {
    forall|j: int| 0 <= j < l.len() ==> l[j] != '\n'
}

/// `trim_start` removes exactly the longest whitespace prefix.
pub proof fn lemma_trim_start_shape(s: Seq<char>)
    ensures
        trim_start(s).len() <= s.len(),
        trim_start(s) == s.subrange(s.len() - trim_start(s).len(), s.len() as int),
        forall|k: int| 0 <= k < s.len() - trim_start(s).len() ==> is_space(s[k]),
        trim_start(s).len() > 0 ==> !is_space(s[s.len() - trim_start(s).len()]),
    decreases s.len(),
{
    if s.len() > 0 && is_space(s[0]) {
        let df = s.drop_first();
        lemma_trim_start_shape(df);
        assert(trim_start(s) == trim_start(df));
        assert(df.subrange(df.len() - trim_start(df).len(), df.len() as int) =~= s.subrange(
            s.len() - trim_start(s).len(),
            s.len() as int,
        ));
        assert forall|k: int| 0 <= k < s.len() - trim_start(s).len() implies is_space(s[k]) by {
            if k >= 1 {
                assert(s[k] == df[k - 1]);
            }
        }
    } else {
        assert(trim_start(s) == s);
        assert(s.subrange(0, s.len() as int) =~= s);
    }
}

/// `trim_end` removes exactly the longest whitespace suffix.
pub proof fn lemma_trim_end_shape(s: Seq<char>)
    ensures
        trim_end(s).len() <= s.len(),
        trim_end(s) == s.subrange(0, trim_end(s).len() as int),
        forall|k: int| trim_end(s).len() <= k < s.len() ==> is_space(s[k]),
        trim_end(s).len() > 0 ==> !is_space(s[trim_end(s).len() - 1]),
    decreases s.len(),
{
    if s.len() > 0 && is_space(s[s.len() - 1]) {
        let dl = s.drop_last();
        lemma_trim_end_shape(dl);
        assert(trim_end(s) == trim_end(dl));
        assert(dl.subrange(0, trim_end(dl).len() as int) =~= s.subrange(
            0,
            trim_end(s).len() as int,
        ));
        assert forall|k: int| trim_end(s).len() <= k < s.len() implies is_space(s[k]) by {
            if k < s.len() - 1 {
                assert(s[k] == dl[k]);
            }
        }
    } else {
        assert(trim_end(s) == s);
        assert(s.subrange(0, s.len() as int) =~= s);
    }
}

/// What `trim` leaves: a subrange of `s` flanked by whitespace, itself
/// starting and ending with non-whitespace, and fixed under a second `trim`.
pub proof fn lemma_trim_props(s: Seq<char>)
    ensures
        trim(s).len() <= s.len(),
        trim(s).len() == 0 <==> (forall|i: int| 0 <= i < s.len() ==> is_space(s[i])),
        trim(s).len() > 0 ==> !is_space(trim(s)[0]) && !is_space(trim(s)[trim(s).len() - 1]),
        trim(trim(s)) == trim(s),
{
    let ts = trim_start(s);
    let t = trim(s);
    lemma_trim_start_shape(s);
    lemma_trim_end_shape(ts);
    if t.len() == 0 {
        if ts.len() > 0 {
            assert(is_space(ts[0]));
            assert(!is_space(s[s.len() - ts.len()]));
            assert(ts[0] == s[s.len() - ts.len()]);
        }
        assert(forall|i: int| 0 <= i < s.len() ==> is_space(s[i]));
    } else {
        assert(t[0] == ts[0]);
        assert(ts[0] == s[s.len() - ts.len()]);
        assert(!is_space(t[0]));
        assert(!is_space(t[t.len() - 1]));
        assert(s[s.len() - ts.len()] == ts[0]);
        lemma_trim_fixed(t);
    }
    if forall|i: int| 0 <= i < s.len() ==> is_space(s[i]) {
        if t.len() > 0 {
            assert(t[0] == ts[0] && ts[0] == s[s.len() - ts.len() + 0]);
        }
    }
    if t.len() == 0 {
        assert(trim_start(t) == t);
        assert(trim_end(t) == t);
    }
}

/// A sequence that starts and ends with non-whitespace (or is empty) is
/// unchanged by `trim`.
pub proof fn lemma_trim_fixed(s: Seq<char>)
    requires
        s.len() == 0 || (!is_space(s[0]) && !is_space(s[s.len() - 1])),
    ensures
        trim(s) == s,
{
    assert(trim_start(s) == s);
    assert(trim_end(s) == s);
}

/// Where trimming leaves anything, its first character is the first
/// non-whitespace character of `s`.
pub proof fn lemma_trim_head(s: Seq<char>)
    requires
        trim(s).len() > 0,
    ensures
        0 <= s.len() - trim_start(s).len() < s.len(),
        trim(s)[0] == s[s.len() - trim_start(s).len()],
        !is_space(s[s.len() - trim_start(s).len()]),
        forall|k: int| 0 <= k < s.len() - trim_start(s).len() ==> is_space(s[k]),
{
    lemma_trim_start_shape(s);
    lemma_trim_end_shape(trim_start(s));
    assert(trim(s)[0] == trim_start(s)[0]);
}

/// A character absent from `s` is absent from its trim.
pub proof fn lemma_trim_no_char(s: Seq<char>, c: char)
    requires
        forall|j: int| 0 <= j < s.len() ==> s[j] != c,
    ensures
        forall|k: int| 0 <= k < trim(s).len() ==> trim(s)[k] != c,
{
    lemma_trim_start_shape(s);
    lemma_trim_end_shape(trim_start(s));
    assert forall|k: int| 0 <= k < trim(s).len() implies trim(s)[k] != c by {
        assert(trim(s)[k] == trim_start(s)[k]);
        assert(trim_start(s)[k] == s[k + s.len() - trim_start(s).len()]);
    }
}

/// `find_char` returns `None` exactly when `c` is absent from `s`.
pub proof fn lemma_find_char_none(s: Seq<char>, c: char)
    ensures
        find_char(s, c) is None <==> (forall|i: int| 0 <= i < s.len() ==> s[i] != c),
    decreases s.len(),
{
    if s.len() > 0 && s[0] != c {
        let df = s.drop_first();
        lemma_find_char_none(df, c);
        if find_char(s, c) is None {
            assert forall|i: int| 0 <= i < s.len() implies s[i] != c by {
                if i >= 1 {
                    assert(df[i - 1] == s[i]);
                }
            }
        }
        if forall|i: int| 0 <= i < s.len() ==> s[i] != c {
            assert forall|j: int| 0 <= j < df.len() implies df[j] != c by {
                assert(df[j] == s[j + 1]);
            }
        }
    }
}

/// `find_char` returns `Some(i)` exactly for the least index `i` holding `c`.
pub proof fn lemma_find_char_some(s: Seq<char>, c: char, i: int)
    ensures
        find_char(s, c) == Some(i) <==> (0 <= i < s.len() && s[i] == c && (forall|j: int|
            0 <= j < i ==> s[j] != c)),
    decreases s.len(),
{
    if s.len() > 0 && s[0] != c {
        let df = s.drop_first();
        lemma_find_char_some(df, c, i - 1);
        if 1 <= i < s.len() {
            assert(s[i] == df[i - 1]);
            if forall|j: int| 0 <= j < i - 1 ==> df[j] != c {
                assert forall|j: int| 0 <= j < i implies s[j] != c by {
                    if j >= 1 {
                        assert(df[j - 1] == s[j]);
                    }
                }
            }
            if forall|j: int| 0 <= j < i ==> s[j] != c {
                assert forall|j: int| 0 <= j < i - 1 implies df[j] != c by {
                    assert(df[j] == s[j + 1]);
                }
            }
        }
    }
}

/// Searching a concatenation whose first part lacks `c` searches the second
/// part, with indices shifted past the first.
pub proof fn lemma_find_char_prepend(a: Seq<char>, b: Seq<char>, c: char)
    requires
        forall|i: int| 0 <= i < a.len() ==> a[i] != c,
    ensures
        find_char(a + b, c) == match find_char(b, c) {
            Some(i) => Some(a.len() + i),
            None => None::<int>,
        },
{
    match find_char(b, c) {
        Some(i) => {
            lemma_find_char_some(b, c, i);
            lemma_find_char_some(a + b, c, a.len() + i);
        }
        None => {
            lemma_find_char_none(b, c);
            lemma_find_char_none(a + b, c);
        }
    }
}

/// Every line produced by `split_lines` is free of `'\n'`.
pub proof fn lemma_split_lines_no_nl(s: Seq<char>)
    ensures
        forall|k: int| 0 <= k < split_lines(s).len() ==> no_nl(#[trigger] split_lines(s)[k]),
    decreases s.len(),
{
    if s.len() > 0 {
        match find_char(s, '\n') {
            Some(i) => {
                lemma_find_char_some(s, '\n', i);
                let first = s.subrange(0, i);
                let rest = s.subrange(i + 1, s.len() as int);
                lemma_split_lines_no_nl(rest);
                assert(no_nl(first));
                assert forall|k: int| 0 <= k < split_lines(s).len() implies no_nl(
                    #[trigger] split_lines(s)[k],
                ) by {
                    if k >= 1 {
                        assert(split_lines(s)[k] == split_lines(rest)[k - 1]);
                    }
                }
            }
            None => {
                lemma_find_char_none(s, '\n');
                assert(no_nl(s));
            }
        }
    }
}

/// Splitting text that opens with a full line yields that line, then the rest.
pub proof fn lemma_split_lines_prepend(a: Seq<char>, b: Seq<char>)
    requires
        no_nl(a),
    ensures
        split_lines(a + seq!['\n'] + b) == seq![a] + split_lines(b),
{
    let s = a + seq!['\n'] + b;
    assert forall|j: int| 0 <= j < a.len() implies s[j] != '\n' by {
        assert(s[j] == a[j]);
    }
    assert(s[a.len() as int] == '\n');
    lemma_find_char_some(s, '\n', a.len() as int);
    assert(s.subrange(0, a.len() as int) =~= a);
    assert(s.subrange(a.len() as int + 1, s.len() as int) =~= b);
}

/// A non-empty terminator-free text is one single line.
pub proof fn lemma_split_lines_single(a: Seq<char>)
    requires
        no_nl(a),
        a.len() > 0,
    ensures
        split_lines(a) == seq![a],
{
    lemma_find_char_none(a, '\n');
}

/// `lines_text` distributes over concatenation of line lists.
pub proof fn lemma_lines_text_append(a: Seq<Seq<char>>, b: Seq<Seq<char>>)
    ensures
        lines_text(a + b) == lines_text(a) + lines_text(b),
    decreases a.len(),
{
    if a.len() == 0 {
        assert(a + b =~= b);
        assert(lines_text(a) + lines_text(b) =~= lines_text(b));
    } else {
        lemma_lines_text_append(a.drop_first(), b);
        assert((a + b).drop_first() =~= a.drop_first() + b);
        assert((a + b)[0] == a[0]);
        assert(a[0] + seq!['\n'] + (lines_text(a.drop_first()) + lines_text(b)) =~= lines_text(a)
            + lines_text(b));
    }
}

/// Rejoining the split of a text that does not end in a terminator appends
/// exactly one final terminator.
pub proof fn lemma_lines_text_split(t: Seq<char>)
    requires
        t.len() > 0,
        t[t.len() - 1] != '\n',
    ensures
        lines_text(split_lines(t)) == t + seq!['\n'],
    decreases t.len(),
{
    match find_char(t, '\n') {
        None => {
            assert(seq![t].drop_first() =~= Seq::<Seq<char>>::empty());
            assert(t + seq!['\n'] + lines_text(seq![t].drop_first()) =~= t + seq!['\n']);
        }
        Some(i) => {
            lemma_find_char_some(t, '\n', i);
            let first = t.subrange(0, i);
            let rest = t.subrange(i + 1, t.len() as int);
            assert(rest.len() > 0);
            assert(rest[rest.len() - 1] == t[t.len() - 1]);
            lemma_lines_text_split(rest);
            let ls = seq![first] + split_lines(rest);
            assert(ls[0] == first);
            assert(ls.drop_first() =~= split_lines(rest));
            assert(lines_text(ls) == first + seq!['\n'] + (rest + seq!['\n']));
            assert(first + seq!['\n'] + (rest + seq!['\n']) =~= t + seq!['\n']);
        }
    }
}

/// Whether `c` is whitespace, decided as `is_space` states it.
pub fn is_space_c(c: char) -> (r: bool)
    ensures
        r == is_space(c),
{
    let u = c as u32;
    u == 0x20 || (0x09 <= u && u <= 0x0D) || u == 0x85 || u == 0xA0 || u == 0x1680 || (0x2000 <= u
        && u <= 0x200A) || u == 0x2028 || u == 0x2029 || u == 0x202F || u == 0x205F || u == 0x3000
}

/// Character-wise string equality.
pub fn str_eq(a: &str, b: &str) -> (r: bool)
    ensures
        r == (a@ == b@),
{
    let n = a.unicode_len();
    let m = b.unicode_len();
    if n != m {
        return false;
    }
    let mut i: usize = 0;
    while i < n
        invariant
            i <= n,
            n == a@.len(),
            n == b@.len(),
            forall|k: int| 0 <= k < i ==> a@[k] == b@[k],
        decreases n - i,
    {
        if a.get_char(i) != b.get_char(i) {
            return false;
        }
        i += 1;
    }
    proof {
        assert(a@ =~= b@);
    }
    true
}

/// First occurrence of `c` in `s` at or after `from`.
pub fn find_char_in(s: &str, c: char, from: usize) -> (r: Option<usize>)
    requires
        from <= s@.len(),
    ensures
        match r {
            Some(k) => from <= k < s@.len() && s@[k as int] == c && (forall|j: int|
                from <= j < k ==> s@[j] != c),
            None => forall|j: int| from <= j < s@.len() ==> s@[j] != c,
        },
{
    let n = s.unicode_len();
    let mut i: usize = from;
    while i < n
        invariant
            from <= i <= n,
            n == s@.len(),
            forall|j: int| from <= j < i ==> s@[j] != c,
        decreases n - i,
    {
        if s.get_char(i) == c {
            return Some(i);
        }
        i += 1;
    }
    None
}

/// Index of the end of the longest whitespace prefix of `s`.
fn scan_space_prefix(s: &str) -> (i: usize)
    ensures
        i <= s@.len(),
        forall|k: int| 0 <= k < i ==> is_space(s@[k]),
        i < s@.len() ==> !is_space(s@[i as int]),
{
    let n = s.unicode_len();
    let mut i: usize = 0;
    while i < n
        invariant
            i <= n,
            n == s@.len(),
            forall|k: int| 0 <= k < i ==> is_space(s@[k]),
        decreases n - i,
    {
        if !is_space_c(s.get_char(i)) {
            return i;
        }
        i += 1;
    }
    i
}

/// Index of the start of the longest whitespace suffix of `s`.
fn scan_space_suffix(s: &str) -> (j: usize)
    ensures
        j <= s@.len(),
        forall|k: int| j <= k < s@.len() ==> is_space(s@[k]),
        j > 0 ==> !is_space(s@[j - 1]),
{
    let n = s.unicode_len();
    let mut j: usize = n;
    while j > 0
        invariant
            j <= n,
            n == s@.len(),
            forall|k: int| j <= k < s@.len() ==> is_space(s@[k]),
        decreases j,
    {
        if !is_space_c(s.get_char(j - 1)) {
            return j;
        }
        j -= 1;
    }
    j
}

/// The character sequences a list of borrowed strings denotes.
pub open spec fn views_of(q: Seq<&str>) -> Seq<Seq<char>> {
    Seq::new(q.len(), |k: int| q[k]@)
}

/// `s` cut into lines, as `split_lines` states it.
pub fn split_str<'a>(s: &'a str) -> (v: Vec<&'a str>)
    ensures
        views_of(v@) == split_lines(s@),
{
    let n = s.unicode_len();
    let mut v: Vec<&'a str> = Vec::new();
    let mut pos: usize = 0;
    proof {
        assert(s@.subrange(0, n as int) =~= s@);
        assert(views_of(v@) + split_lines(s@) =~= split_lines(s@));
    }
    while pos < n
        invariant
            pos <= n,
            n == s@.len(),
            split_lines(s@) =~= views_of(v@) + split_lines(s@.subrange(pos as int, n as int)),
        decreases n - pos,
    {
        let ghost rest = s@.subrange(pos as int, n as int);
        let ghost v0 = v@;
        match find_char_in(s, '\n', pos) {
            Some(k) => {
                let line = s.substring_char(pos, k);
                v.push(line);
                proof {
                    assert forall|j: int| 0 <= j < k - pos implies rest[j] != '\n' by {
                        assert(rest[j] == s@[pos + j]);
                    }
                    assert(rest[k - pos] == '\n');
                    lemma_find_char_some(rest, '\n', k - pos);
                    assert(rest.subrange(0, k - pos) =~= line@);
                    assert(rest.subrange(k - pos + 1, rest.len() as int) =~= s@.subrange(
                        k as int + 1,
                        n as int,
                    ));
                    assert(views_of(v@) =~= views_of(v0) + seq![line@]);
                    assert(views_of(v0) + (seq![line@] + split_lines(
                        s@.subrange(k as int + 1, n as int),
                    )) =~= views_of(v@) + split_lines(s@.subrange(k as int + 1, n as int)));
                }
                pos = k + 1;
            }
            None => {
                let line = s.substring_char(pos, n);
                v.push(line);
                proof {
                    assert forall|j: int| 0 <= j < rest.len() implies rest[j] != '\n' by {
                        assert(rest[j] == s@[pos + j]);
                    }
                    lemma_find_char_none(rest, '\n');
                    assert(rest.len() > 0);
                    assert(line@ =~= rest);
                    assert(views_of(v@) =~= views_of(v0) + seq![rest]);
                    assert(s@.subrange(n as int, n as int) =~= Seq::<char>::empty());
                    assert(views_of(v0) + (seq![rest] + split_lines(Seq::<char>::empty()))
                        =~= views_of(v@) + split_lines(Seq::<char>::empty()));
                }
                pos = n;
            }
        }
    }
    proof {
        assert(s@.subrange(pos as int, n as int) =~= Seq::<char>::empty());
        assert(views_of(v@) + split_lines(Seq::<char>::empty()) =~= views_of(v@));
    }
    v
}

/// `s` with leading and trailing whitespace removed, as `trim` states it.
pub fn trim_str<'a>(s: &'a str) -> (r: &'a str)
    ensures
        r@ == trim(s@),
{
    let n = s.unicode_len();
    let i = scan_space_prefix(s);
    proof {
        lemma_trim_start_shape(s@);
        let i0 = s@.len() - trim_start(s@).len();
        if i < i0 {
            assert(is_space(s@[i as int]));
        }
        if i > i0 {
            assert(is_space(s@[i0]));
        }
        assert(i == i0);
        assert(trim_start(s@) =~= s@.subrange(i as int, n as int));
    }
    if i == n {
        proof {
            assert(trim_start(s@) =~= Seq::<char>::empty());
            assert(trim_end(trim_start(s@)) == trim_start(s@));
        }
        return s.substring_char(n, n);
    }
    let j = scan_space_suffix(s);
    proof {
        let ts = s@.subrange(i as int, n as int);
        lemma_trim_end_shape(ts);
        let j0 = i + trim_end(ts).len();
        assert forall|k: int| j0 <= k < n implies is_space(s@[k]) by {
            assert(s@[k] == ts[k - i]);
        }
        if j0 > i {
            assert(!is_space(ts[trim_end(ts).len() - 1]));
            assert(ts[trim_end(ts).len() - 1] == s@[j0 - 1]);
        }
        if j < j0 {
            if j <= i {
                assert(is_space(s@[i as int]));
            } else {
                assert(is_space(s@[j0 - 1]));
            }
        }
        if j > j0 {
            assert(is_space(s@[j - 1]));
        }
        assert(j == j0);
        assert(trim_end(ts) =~= s@.subrange(i as int, j as int));
    }
    let r = s.substring_char(i, j);
    r
}

} // verus!
