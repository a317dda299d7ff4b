//! The parsed form of a whole file: a leading header block and an ordered
//! list of entries, with lookup and mutation over it and the serializer that
//! writes it back out.

use vstd::prelude::*;

use crate::entry::{
    header_content, header_line_content, opt_view, parse_key_value, parse_line,
    spec_parse_key_value, spec_parse_line, Entry, ParseError, SpecEntry, SpecParseError,
};
use crate::text::{lines_text, split_lines, split_str, str_eq, trim, trim_str};

verus! {

/// Mathematical form of an [`EnvFile`]: the header lines and the entries.
#[verifier::ext_equal]
pub ghost struct SpecDoc {
    pub header: Seq<Seq<char>>,
    pub entries: Seq<SpecEntry>,
}

/// A parsed file: the header block before the first key/value line, and the
/// body entries in their original order.
#[derive(Debug)]
pub struct EnvFile {
    header: Vec<String>,
    entries: Vec<Entry>,
}

/// The character sequences a list of strings denotes.
pub open spec fn strings_view(v: Seq<String>) -> Seq<Seq<char>> {
    Seq::new(v.len(), |i: int| v[i]@)
}

/// The mathematical entries a list of entries denotes.
pub open spec fn entries_view(v: Seq<Entry>) -> Seq<SpecEntry> {
    Seq::new(v.len(), |i: int| v[i]@)
}

impl View for EnvFile {
    type V = SpecDoc;

    closed spec fn view(&self) -> SpecDoc {
        SpecDoc { header: strings_view(self.header@), entries: entries_view(self.entries@) }
    }
}

/// Whether `e` is a key/value entry for `key`.
pub open spec fn is_key_entry(e: SpecEntry, key: Seq<char>) -> bool {
    e matches SpecEntry::KeyValue { key: k, .. } && k == key
}

/// The value of the first key/value entry for `key`, if any.
pub open spec fn spec_get_value(es: Seq<SpecEntry>, key: Seq<char>) -> Option<Seq<char>>
    decreases es.len(),
{
    if es.len() == 0 {
        None
    } else if is_key_entry(es[0], key) {
        match es[0] {
            SpecEntry::KeyValue { value, .. } => Some(value),
            _ => None,
        }
    } else {
        spec_get_value(es.drop_first(), key)
    }
}

/// The comment of the first key/value entry for `key`: absent when the key
/// is absent or that entry has no comment.
pub open spec fn spec_get_comment(es: Seq<SpecEntry>, key: Seq<char>) -> Option<Seq<char>>
    decreases es.len(),
{
    if es.len() == 0 {
        None
    } else if is_key_entry(es[0], key) {
        match es[0] {
            SpecEntry::KeyValue { comment, .. } => comment,
            _ => None,
        }
    } else {
        spec_get_comment(es.drop_first(), key)
    }
}

/// The keys of the key/value entries, in entry order.
pub open spec fn spec_list_keys(es: Seq<SpecEntry>) -> Seq<Seq<char>>
    decreases es.len(),
{
    if es.len() == 0 {
        Seq::empty()
    } else {
        match es[0] {
            SpecEntry::KeyValue { key, .. } => seq![key] + spec_list_keys(es.drop_first()),
            _ => spec_list_keys(es.drop_first()),
        }
    }
}

/// `es` with the value of the first entry for `key` replaced, its comment
/// kept; when no entry matches, a new comment-free entry appended.
pub open spec fn spec_set_value(es: Seq<SpecEntry>, key: Seq<char>, value: Seq<char>) -> Seq<
    SpecEntry,
>
    decreases es.len(),
{
    if es.len() == 0 {
        seq![SpecEntry::KeyValue { key, value, comment: None }]
    } else if is_key_entry(es[0], key) {
        match es[0] {
            SpecEntry::KeyValue { key: k, comment, .. } => seq![
                SpecEntry::KeyValue { key: k, value, comment },
            ] + es.drop_first(),
            _ => es,
        }
    } else {
        seq![es[0]] + spec_set_value(es.drop_first(), key, value)
    }
}

/// `es` with the comment of the first entry for `key` replaced; unchanged
/// when no entry matches.
pub open spec fn spec_set_comment(es: Seq<SpecEntry>, key: Seq<char>, comment: Seq<char>) -> Seq<
    SpecEntry,
>
    decreases es.len(),
{
    if es.len() == 0 {
        Seq::empty()
    } else if is_key_entry(es[0], key) {
        match es[0] {
            SpecEntry::KeyValue { key: k, value, .. } => seq![
                SpecEntry::KeyValue { key: k, value, comment: Some(comment) },
            ] + es.drop_first(),
            _ => es,
        }
    } else {
        seq![es[0]] + spec_set_comment(es.drop_first(), key, comment)
    }
}

/// `es` with the comment of the first entry for `key` cleared; unchanged
/// when no entry matches.
pub open spec fn spec_delete_comment(es: Seq<SpecEntry>, key: Seq<char>) -> Seq<SpecEntry>
    decreases es.len(),
{
    if es.len() == 0 {
        Seq::empty()
    } else if is_key_entry(es[0], key) {
        match es[0] {
            SpecEntry::KeyValue { key: k, value, .. } => seq![
                SpecEntry::KeyValue { key: k, value, comment: None },
            ] + es.drop_first(),
            _ => es,
        }
    } else {
        seq![es[0]] + spec_delete_comment(es.drop_first(), key)
    }
}

/// `es` with every key/value entry for `key` removed.
pub open spec fn spec_delete_key(es: Seq<SpecEntry>, key: Seq<char>) -> Seq<SpecEntry>
    decreases es.len(),
{
    if es.len() == 0 {
        Seq::empty()
    } else if is_key_entry(es[0], key) {
        spec_delete_key(es.drop_first(), key)
    } else {
        seq![es[0]] + spec_delete_key(es.drop_first(), key)
    }
}

/// The header as one text: each line followed by `'\n'`; absent when the
/// header block is empty.
pub open spec fn spec_get_header(header: Seq<Seq<char>>) -> Option<Seq<char>> {
    if header.len() == 0 {
        None
    } else {
        Some(lines_text(header))
    }
}

/// The body entries a list of post-first-key lines yields, or the first
/// invalid line.
pub open spec fn spec_parse_body(lines: Seq<Seq<char>>) -> Result<Seq<SpecEntry>, Seq<char>>
    decreases lines.len(),
{
    if lines.len() == 0 {
        Ok(Seq::empty())
    } else {
        match spec_parse_line(lines[0]) {
            None => Err(lines[0]),
            Some(e) => match spec_parse_body(lines.drop_first()) {
                Ok(es) => Ok(seq![e] + es),
                Err(bad) => Err(bad),
            },
        }
    }
}

/// The document a list of lines yields. Before the first key/value line,
/// blank lines are dropped and comment lines feed the header; any other
/// non-key line fails the parse. From the first key/value line on, every
/// line is one body entry.
pub open spec fn spec_parse_doc(lines: Seq<Seq<char>>) -> Result<SpecDoc, SpecParseError>
    decreases lines.len(),
{
    if lines.len() == 0 {
        Ok(SpecDoc { header: Seq::empty(), entries: Seq::empty() })
    } else {
        let l = lines[0];
        if trim(l).len() == 0 {
            spec_parse_doc(lines.drop_first())
        } else if trim(l)[0] == '#' {
            match spec_parse_doc(lines.drop_first()) {
                Ok(d) => Ok(SpecDoc { header: seq![header_content(l)] + d.header, entries: d.entries }),
                Err(e) => Err(e),
            }
        } else if spec_parse_key_value(l) is Some {
            match spec_parse_body(lines) {
                Ok(es) => Ok(SpecDoc { header: Seq::empty(), entries: es }),
                Err(bad) => Err(SpecParseError::InvalidLine { line: bad }),
            }
        } else {
            Err(SpecParseError::InvalidHeaderLine { line: l })
        }
    }
}

/// The document raw text yields.
pub open spec fn spec_parse(text: Seq<char>) -> Result<SpecDoc, SpecParseError> {
    spec_parse_doc(split_lines(text))
}

/// Extending the scanned prefix extends its key list by the entry's key, if
/// it has one.
pub proof fn lemma_list_keys_push(es: Seq<SpecEntry>, e: SpecEntry)
    ensures
        spec_list_keys(es.push(e)) == spec_list_keys(es) + (match e {
            SpecEntry::KeyValue { key, .. } => seq![key],
            _ => Seq::empty(),
        }),
    decreases es.len(),
{
    let tail: Seq<Seq<char>> = match e {
        SpecEntry::KeyValue { key, .. } => seq![key],
        _ => Seq::empty(),
    };
    if es.len() == 0 {
        assert(es.push(e)[0] == e);
        assert(es.push(e).drop_first() =~= Seq::<SpecEntry>::empty());
        assert(spec_list_keys(Seq::<SpecEntry>::empty()) == Seq::<Seq<char>>::empty());
        assert(spec_list_keys(es) + tail =~= spec_list_keys(es.push(e)));
    } else {
        lemma_list_keys_push(es.drop_first(), e);
        assert(es.push(e).drop_first() =~= es.drop_first().push(e));
        assert(es.push(e)[0] == es[0]);
        match es[0] {
            SpecEntry::KeyValue { key, .. } => {
                assert(seq![key] + (spec_list_keys(es.drop_first()) + tail) =~= spec_list_keys(es)
                    + tail);
            }
            _ => {}
        }
    }
}

/// Extending the scanned prefix keeps, or drops, exactly the new entry.
pub proof fn lemma_delete_key_push(es: Seq<SpecEntry>, e: SpecEntry, key: Seq<char>)
    ensures
        spec_delete_key(es.push(e), key) == spec_delete_key(es, key) + (if is_key_entry(e, key) {
            Seq::empty()
        } else {
            seq![e]
        }),
    decreases es.len(),
{
    let tail: Seq<SpecEntry> = if is_key_entry(e, key) {
        Seq::empty()
    } else {
        seq![e]
    };
    if es.len() == 0 {
        assert(es.push(e)[0] == e);
        assert(es.push(e).drop_first() =~= Seq::<SpecEntry>::empty());
        assert(spec_delete_key(Seq::<SpecEntry>::empty(), key) == Seq::<SpecEntry>::empty());
        assert(spec_delete_key(es, key) + tail =~= spec_delete_key(es.push(e), key));
    } else {
        lemma_delete_key_push(es.drop_first(), e, key);
        assert(es.push(e).drop_first() =~= es.drop_first().push(e));
        assert(es.push(e)[0] == es[0]);
        if !is_key_entry(es[0], key) {
            assert(seq![es[0]] + (spec_delete_key(es.drop_first(), key) + tail)
                =~= spec_delete_key(es, key) + tail);
        }
    }
}

/// The update an entry for `key` receives from `spec_set_value`.
pub open spec fn with_value(e: SpecEntry, value: Seq<char>) -> SpecEntry {
    match e {
        SpecEntry::KeyValue { key: k, comment, .. } => SpecEntry::KeyValue {
            key: k,
            value,
            comment,
        },
        x => x,
    }
}

/// The update an entry for `key` receives from `spec_set_comment` or
/// `spec_delete_comment`.
pub open spec fn with_comment(e: SpecEntry, comment: Option<Seq<char>>) -> SpecEntry {
    match e {
        SpecEntry::KeyValue { key: k, value, .. } => SpecEntry::KeyValue {
            key: k,
            value,
            comment,
        },
        x => x,
    }
}

/// Where the first entry for `key` stands at `i`, `spec_set_value` updates
/// exactly that entry.
pub proof fn lemma_set_value_found(es: Seq<SpecEntry>, key: Seq<char>, value: Seq<char>, i: int)
    requires
        0 <= i < es.len(),
        forall|j: int| 0 <= j < i ==> !is_key_entry(#[trigger] es[j], key),
        is_key_entry(es[i], key),
    ensures
        spec_set_value(es, key, value) == es.update(i, with_value(es[i], value)),
    decreases i,
{
    if i == 0 {
        assert(seq![with_value(es[0], value)] + es.drop_first() =~= es.update(
            0,
            with_value(es[0], value),
        ));
    } else {
        let df = es.drop_first();
        assert forall|j: int| 0 <= j < i - 1 implies !is_key_entry(#[trigger] df[j], key) by {
            assert(df[j] == es[j + 1]);
        }
        assert(df[i - 1] == es[i]);
        lemma_set_value_found(df, key, value, i - 1);
        assert(seq![es[0]] + df.update(i - 1, with_value(es[i], value)) =~= es.update(
            i,
            with_value(es[i], value),
        ));
    }
}

/// Where no entry is for `key`, `spec_set_value` appends a fresh entry.
pub proof fn lemma_set_value_missing(es: Seq<SpecEntry>, key: Seq<char>, value: Seq<char>)
    requires
        forall|j: int| 0 <= j < es.len() ==> !is_key_entry(#[trigger] es[j], key),
    ensures
        spec_set_value(es, key, value) == es.push(
            SpecEntry::KeyValue { key, value, comment: None },
        ),
    decreases es.len(),
{
    let fresh = SpecEntry::KeyValue { key, value, comment: None };
    if es.len() == 0 {
        assert(seq![fresh] =~= es.push(fresh));
    } else {
        let df = es.drop_first();
        assert forall|j: int| 0 <= j < df.len() implies !is_key_entry(#[trigger] df[j], key) by {
            assert(df[j] == es[j + 1]);
        }
        lemma_set_value_missing(df, key, value);
        assert(seq![es[0]] + df.push(fresh) =~= es.push(fresh));
    }
}

/// Where the first entry for `key` stands at `i`, `spec_set_comment`
/// updates exactly that entry.
pub proof fn lemma_set_comment_found(es: Seq<SpecEntry>, key: Seq<char>, c: Seq<char>, i: int)
    requires
        0 <= i < es.len(),
        forall|j: int| 0 <= j < i ==> !is_key_entry(#[trigger] es[j], key),
        is_key_entry(es[i], key),
    ensures
        spec_set_comment(es, key, c) == es.update(i, with_comment(es[i], Some(c))),
    decreases i,
{
    if i == 0 {
        assert(seq![with_comment(es[0], Some(c))] + es.drop_first() =~= es.update(
            0,
            with_comment(es[0], Some(c)),
        ));
    } else {
        let df = es.drop_first();
        assert forall|j: int| 0 <= j < i - 1 implies !is_key_entry(#[trigger] df[j], key) by {
            assert(df[j] == es[j + 1]);
        }
        assert(df[i - 1] == es[i]);
        lemma_set_comment_found(df, key, c, i - 1);
        assert(seq![es[0]] + df.update(i - 1, with_comment(es[i], Some(c))) =~= es.update(
            i,
            with_comment(es[i], Some(c)),
        ));
    }
}

/// Where the first entry for `key` stands at `i`, `spec_delete_comment`
/// clears exactly that entry's comment.
pub proof fn lemma_delete_comment_found(es: Seq<SpecEntry>, key: Seq<char>, i: int)
    requires
        0 <= i < es.len(),
        forall|j: int| 0 <= j < i ==> !is_key_entry(#[trigger] es[j], key),
        is_key_entry(es[i], key),
    ensures
        spec_delete_comment(es, key) == es.update(i, with_comment(es[i], None)),
    decreases i,
{
    if i == 0 {
        assert(seq![with_comment(es[0], None)] + es.drop_first() =~= es.update(
            0,
            with_comment(es[0], None),
        ));
    } else {
        let df = es.drop_first();
        assert forall|j: int| 0 <= j < i - 1 implies !is_key_entry(#[trigger] df[j], key) by {
            assert(df[j] == es[j + 1]);
        }
        assert(df[i - 1] == es[i]);
        lemma_delete_comment_found(df, key, i - 1);
        assert(seq![es[0]] + df.update(i - 1, with_comment(es[i], None)) =~= es.update(
            i,
            with_comment(es[i], None),
        ));
    }
}

/// Where no entry is for `key`, the two comment mutators change nothing.
pub proof fn lemma_set_comment_missing(es: Seq<SpecEntry>, key: Seq<char>, comment: Seq<char>)
    requires
        forall|j: int| 0 <= j < es.len() ==> !is_key_entry(#[trigger] es[j], key),
    ensures
        spec_set_comment(es, key, comment) == es,
        spec_delete_comment(es, key) == es,
    decreases es.len(),
{
    if es.len() > 0 {
        let df = es.drop_first();
        assert forall|j: int| 0 <= j < df.len() implies !is_key_entry(#[trigger] df[j], key) by {
            assert(df[j] == es[j + 1]);
        }
        lemma_set_comment_missing(df, key, comment);
        assert(seq![es[0]] + df =~= es);
    } else {
        assert(spec_set_comment(es, key, comment) =~= es);
        assert(spec_delete_comment(es, key) =~= es);
    }
}

/// The line an entry serializes to, terminator included.
pub open spec fn render_entry(e: SpecEntry) -> Seq<char> {
    match e {
        SpecEntry::KeyValue { key, value, comment } => match comment {
            Some(c) => key + seq!['='] + value + seq![' ', '#', ' '] + c + seq!['\n'],
            None => key + seq!['='] + value + seq!['\n'],
        },
        SpecEntry::Comment(c) => c + seq!['\n'],
        SpecEntry::Blank => seq!['\n'],
    }
}

/// The text a list of entries serializes to.
pub open spec fn render_entries(es: Seq<SpecEntry>) -> Seq<char>
    decreases es.len(),
{
    if es.len() == 0 {
        Seq::empty()
    } else {
        render_entry(es[0]) + render_entries(es.drop_first())
    }
}

/// The text a header block serializes to: each line as `"# "`, its content,
/// and a terminator.
pub open spec fn render_header(header: Seq<Seq<char>>) -> Seq<char>
    decreases header.len(),
{
    if header.len() == 0 {
        Seq::empty()
    } else {
        seq!['#', ' '] + header[0] + seq!['\n'] + render_header(header.drop_first())
    }
}

/// The text a document serializes to: the header block, one blank separator
/// line when the header is non-empty, then the entries.
pub open spec fn spec_render(d: SpecDoc) -> Seq<char> {
    if d.header.len() == 0 {
        render_entries(d.entries)
    } else {
        render_header(d.header) + seq!['\n'] + render_entries(d.entries)
    }
}

/// `render_header` distributes over concatenation of header blocks.
pub proof fn lemma_render_header_append(a: Seq<Seq<char>>, b: Seq<Seq<char>>)
    ensures
        render_header(a + b) == render_header(a) + render_header(b),
    decreases a.len(),
{
    if a.len() == 0 {
        assert(a + b =~= b);
        assert(render_header(a) + render_header(b) =~= render_header(b));
    } else {
        lemma_render_header_append(a.drop_first(), b);
        assert((a + b).drop_first() =~= a.drop_first() + b);
        assert((a + b)[0] == a[0]);
        assert(seq!['#', ' '] + a[0] + seq!['\n'] + (render_header(a.drop_first())
            + render_header(b)) =~= render_header(a) + render_header(b));
    }
}

/// `render_entries` distributes over concatenation of entry lists.
pub proof fn lemma_render_entries_append(a: Seq<SpecEntry>, b: Seq<SpecEntry>)
    ensures
        render_entries(a + b) == render_entries(a) + render_entries(b),
    decreases a.len(),
{
    if a.len() == 0 {
        assert(a + b =~= b);
        assert(render_entries(a) + render_entries(b) =~= render_entries(b));
    } else {
        lemma_render_entries_append(a.drop_first(), b);
        assert((a + b).drop_first() =~= a.drop_first() + b);
        assert((a + b)[0] == a[0]);
        assert(render_entry(a[0]) + (render_entries(a.drop_first()) + render_entries(b))
            =~= render_entries(a) + render_entries(b));
    }
}

/// A copy of an optional string with the same character sequence.
fn clone_opt(o: &Option<String>) -> (r: Option<String>)
    ensures
        opt_view(r) == opt_view(*o),
{
    match o {
        Some(s) => Some(s.clone()),
        None => None,
    }
}

impl EnvFile {
    /// All key/value keys, in entry order.
    pub fn list_keys(&self) -> (r: Vec<&str>)
        ensures
            crate::text::views_of(r@) == spec_list_keys(self@.entries),
    {
        let ghost es = entries_view(self.entries@);
        let n = self.entries.len();
        let mut keys: Vec<&str> = Vec::new();
        let mut i: usize = 0;
        proof {
            assert(es.take(0) =~= Seq::<SpecEntry>::empty());
            assert(crate::text::views_of(keys@) =~= spec_list_keys(es.take(0)));
        }
        while i < n
            invariant
                i <= n,
                n == self.entries@.len(),
                es == entries_view(self.entries@),
                crate::text::views_of(keys@) =~= spec_list_keys(es.take(i as int)),
            decreases n - i,
        {
            let ghost keys0 = keys@;
            match &self.entries[i] {
                Entry::KeyValue { key, .. } => {
                    keys.push(key.as_str());
                }
                _ => {}
            }
            proof {
                lemma_list_keys_push(es.take(i as int), es[i as int]);
                assert(es.take(i as int).push(es[i as int]) =~= es.take(i as int + 1));
                assert(crate::text::views_of(keys@) =~= spec_list_keys(es.take(i as int + 1)));
            }
            i += 1;
        }
        proof {
            assert(es.take(n as int) =~= es);
        }
        keys
    }

    /// The value of the first key/value entry for `key`, if any.
    pub fn get_value(&self, key: &str) -> (r: Option<&str>)
        ensures
            match r {
                Some(v) => spec_get_value(self@.entries, key@) == Some(v@),
                None => spec_get_value(self@.entries, key@) is None,
            },
    {
        let ghost es = entries_view(self.entries@);
        let n = self.entries.len();
        let mut i: usize = 0;
        proof {
            assert(es.skip(0) =~= es);
        }
        while i < n
            invariant
                i <= n,
                n == self.entries@.len(),
                es == entries_view(self.entries@),
                spec_get_value(es, key@) == spec_get_value(es.skip(i as int), key@),
            decreases n - i,
        {
            proof {
                assert(es.skip(i as int)[0] == es[i as int]);
                assert(es.skip(i as int).drop_first() =~= es.skip(i as int + 1));
            }
            match &self.entries[i] {
                Entry::KeyValue { key: k, value, .. } => {
                    if str_eq(k.as_str(), key) {
                        return Some(value.as_str());
                    }
                }
                _ => {}
            }
            i += 1;
        }
        proof {
            assert(es.skip(n as int) =~= Seq::<SpecEntry>::empty());
        }
        None
    }

    /// The comment of the first key/value entry for `key`: absent when the
    /// key is absent or that entry has no comment.
    pub fn get_comment(&self, key: &str) -> (r: Option<&str>)
        ensures
            match r {
                Some(c) => spec_get_comment(self@.entries, key@) == Some(c@),
                None => spec_get_comment(self@.entries, key@) is None,
            },
    {
        let ghost es = entries_view(self.entries@);
        let n = self.entries.len();
        let mut i: usize = 0;
        proof {
            assert(es.skip(0) =~= es);
        }
        while i < n
            invariant
                i <= n,
                n == self.entries@.len(),
                es == entries_view(self.entries@),
                spec_get_comment(es, key@) == spec_get_comment(es.skip(i as int), key@),
            decreases n - i,
        {
            proof {
                assert(es.skip(i as int)[0] == es[i as int]);
                assert(es.skip(i as int).drop_first() =~= es.skip(i as int + 1));
            }
            match &self.entries[i] {
                Entry::KeyValue { key: k, comment, .. } => {
                    if str_eq(k.as_str(), key) {
                        return match comment {
                            Some(c) => Some(c.as_str()),
                            None => None,
                        };
                    }
                }
                _ => {}
            }
            i += 1;
        }
        proof {
            assert(es.skip(n as int) =~= Seq::<SpecEntry>::empty());
        }
        None
    }

    /// The header as one text, each line followed by `'\n'`; absent when the
    /// header block is empty.
    pub fn get_header(&self) -> (r: Option<String>)
        ensures
            opt_view(r) == spec_get_header(self@.header),
    {
        let ghost hv = strings_view(self.header@);
        let n = self.header.len();
        if n == 0 {
            return None;
        }
        let mut out = String::new();
        let mut i: usize = 0;
        proof {
            reveal_strlit("\n");
            assert(("\n")@ =~= seq!['\n']);
            assert(hv.take(0) =~= Seq::<Seq<char>>::empty());
            assert(out@ =~= lines_text(hv.take(0)));
        }
        while i < n
            invariant
                i <= n,
                n == self.header@.len(),
                hv == strings_view(self.header@),
                ("\n")@ == seq!['\n'],
                out@ == lines_text(hv.take(i as int)),
            decreases n - i,
        {
            out.append(self.header[i].as_str());
            out.append("\n");
            proof {
                crate::text::lemma_lines_text_append(hv.take(i as int), seq![hv[i as int]]);
                assert(hv.take(i as int) + seq![hv[i as int]] =~= hv.take(i as int + 1));
                assert(seq![hv[i as int]].drop_first() =~= Seq::<Seq<char>>::empty());
                assert(lines_text(Seq::<Seq<char>>::empty()) == Seq::<char>::empty());
                assert(lines_text(seq![hv[i as int]]) =~= hv[i as int] + seq!['\n']);
                assert(out@ =~= lines_text(hv.take(i as int + 1)));
            }
            i += 1;
        }
        proof {
            assert(hv.take(n as int) =~= hv);
        }
        Some(out)
    }

    /// Replaces the value of the first entry for `key`, keeping its comment;
    /// appends a fresh comment-free entry when no entry matches.
    pub fn set_value(&mut self, key: &str, value: &str)
        ensures
            final(self)@.entries == spec_set_value(old(self)@.entries, key@, value@),
            final(self)@.header == old(self)@.header,
    {
        let ghost es = entries_view(self.entries@);
        let n = self.entries.len();
        let mut i: usize = 0;
        while i < n
            invariant
                i <= n,
                n == self.entries@.len(),
                self.entries@ == old(self).entries@,
                self.header@ == old(self).header@,
                es == entries_view(self.entries@),
                forall|j: int| 0 <= j < i ==> !is_key_entry(#[trigger] es[j], key@),
            decreases n - i,
        {
            let mut matched = false;
            match &self.entries[i] {
                Entry::KeyValue { key: k, .. } => {
                    matched = str_eq(k.as_str(), key);
                }
                _ => {}
            }
            proof {
                assert(matched == is_key_entry(es[i as int], key@));
            }
            if matched {
                let replacement = match &self.entries[i] {
                    Entry::KeyValue { key: k, comment: c, .. } => Entry::KeyValue {
                        key: k.clone(),
                        value: String::from_str(value),
                        comment: clone_opt(c),
                    },
                    _ => Entry::Blank,
                };
                proof {
                    assert(replacement@ == with_value(es[i as int], value@));
                }
                self.entries[i] = replacement;
                proof {
                    lemma_set_value_found(es, key@, value@, i as int);
                    assert(entries_view(self.entries@) =~= es.update(
                        i as int,
                        with_value(es[i as int], value@),
                    ));
                }
                return;
            }
            i += 1;
        }
        self.entries.push(
            Entry::KeyValue {
                key: String::from_str(key),
                value: String::from_str(value),
                comment: None,
            },
        );
        proof {
            lemma_set_value_missing(es, key@, value@);
            assert(entries_view(self.entries@) =~= es.push(
                SpecEntry::KeyValue { key: key@, value: value@, comment: None },
            ));
        }
    }

    /// Replaces the comment of the first entry for `key`; does nothing when
    /// no entry matches.
    pub fn set_comment(&mut self, key: &str, comment: &str)
        ensures
            final(self)@.entries == spec_set_comment(old(self)@.entries, key@, comment@),
            final(self)@.header == old(self)@.header,
    {
        let ghost es = entries_view(self.entries@);
        let n = self.entries.len();
        let mut i: usize = 0;
        while i < n
            invariant
                i <= n,
                n == self.entries@.len(),
                self.entries@ == old(self).entries@,
                self.header@ == old(self).header@,
                es == entries_view(self.entries@),
                forall|j: int| 0 <= j < i ==> !is_key_entry(#[trigger] es[j], key@),
            decreases n - i,
        {
            let mut matched = false;
            match &self.entries[i] {
                Entry::KeyValue { key: k, .. } => {
                    matched = str_eq(k.as_str(), key);
                }
                _ => {}
            }
            proof {
                assert(matched == is_key_entry(es[i as int], key@));
            }
            if matched {
                let replacement = match &self.entries[i] {
                    Entry::KeyValue { key: k, value: v, .. } => Entry::KeyValue {
                        key: k.clone(),
                        value: v.clone(),
                        comment: Some(String::from_str(comment)),
                    },
                    _ => Entry::Blank,
                };
                proof {
                    assert(replacement@ == with_comment(es[i as int], Some(comment@)));
                }
                self.entries[i] = replacement;
                proof {
                    lemma_set_comment_found(es, key@, comment@, i as int);
                    assert(entries_view(self.entries@) =~= es.update(
                        i as int,
                        with_comment(es[i as int], Some(comment@)),
                    ));
                }
                return;
            }
            i += 1;
        }
        proof {
            lemma_set_comment_missing(es, key@, comment@);
        }
    }

    /// Replaces the whole header block with the line-split form of `header`.
    pub fn set_header(&mut self, header: &str)
        ensures
            final(self)@.header == split_lines(header@),
            final(self)@.entries == old(self)@.entries,
    {
        let parts = split_str(header);
        let m = parts.len();
        let mut fresh: Vec<String> = Vec::new();
        let mut i: usize = 0;
        while i < m
            invariant
                i <= m,
                m == parts@.len(),
                crate::text::views_of(parts@) == split_lines(header@),
                fresh@.len() == i,
                forall|j: int| 0 <= j < i ==> #[trigger] fresh@[j]@ == parts@[j]@,
            decreases m - i,
        {
            fresh.push(String::from_str(parts[i]));
            i += 1;
        }
        self.header = fresh;
        proof {
            assert(strings_view(self.header@) =~= split_lines(header@));
        }
    }

    /// Removes every key/value entry for `key`, its comment with it.
    pub fn delete_key(&mut self, key: &str)
        ensures
            final(self)@.entries == spec_delete_key(old(self)@.entries, key@),
            final(self)@.header == old(self)@.header,
    {
        let ghost es = entries_view(self.entries@);
        let n = self.entries.len();
        let mut kept: Vec<Entry> = Vec::new();
        let mut i: usize = 0;
        proof {
            assert(es.take(0) =~= Seq::<SpecEntry>::empty());
            assert(entries_view(kept@) =~= spec_delete_key(es.take(0), key@));
        }
        while i < n
            invariant
                i <= n,
                n == self.entries@.len(),
                self.entries@ == old(self).entries@,
                self.header@ == old(self).header@,
                es == entries_view(self.entries@),
                entries_view(kept@) =~= spec_delete_key(es.take(i as int), key@),
            decreases n - i,
        {
            let mut matched = false;
            match &self.entries[i] {
                Entry::KeyValue { key: k, .. } => {
                    matched = str_eq(k.as_str(), key);
                }
                _ => {}
            }
            proof {
                assert(matched == is_key_entry(es[i as int], key@));
            }
            let ghost kept0 = kept@;
            if !matched {
                let copy = match &self.entries[i] {
                    Entry::KeyValue { key: k, value: v, comment: c } => Entry::KeyValue {
                        key: k.clone(),
                        value: v.clone(),
                        comment: clone_opt(c),
                    },
                    Entry::Comment(c) => Entry::Comment(c.clone()),
                    Entry::Blank => Entry::Blank,
                };
                proof {
                    assert(copy@ == es[i as int]);
                }
                kept.push(copy);
            }
            proof {
                lemma_delete_key_push(es.take(i as int), es[i as int], key@);
                assert(es.take(i as int).push(es[i as int]) =~= es.take(i as int + 1));
                assert(entries_view(kept@) =~= spec_delete_key(es.take(i as int + 1), key@));
            }
            i += 1;
        }
        self.entries = kept;
        proof {
            assert(es.take(n as int) =~= es);
        }
    }

    /// Clears the comment of the first entry for `key`; does nothing when no
    /// entry matches.
    pub fn delete_comment(&mut self, key: &str)
        ensures
            final(self)@.entries == spec_delete_comment(old(self)@.entries, key@),
            final(self)@.header == old(self)@.header,
    {
        let ghost es = entries_view(self.entries@);
        let n = self.entries.len();
        let mut i: usize = 0;
        while i < n
            invariant
                i <= n,
                n == self.entries@.len(),
                self.entries@ == old(self).entries@,
                self.header@ == old(self).header@,
                es == entries_view(self.entries@),
                forall|j: int| 0 <= j < i ==> !is_key_entry(#[trigger] es[j], key@),
            decreases n - i,
        {
            let mut matched = false;
            match &self.entries[i] {
                Entry::KeyValue { key: k, .. } => {
                    matched = str_eq(k.as_str(), key);
                }
                _ => {}
            }
            proof {
                assert(matched == is_key_entry(es[i as int], key@));
            }
            if matched {
                let replacement = match &self.entries[i] {
                    Entry::KeyValue { key: k, value: v, .. } => Entry::KeyValue {
                        key: k.clone(),
                        value: v.clone(),
                        comment: None,
                    },
                    _ => Entry::Blank,
                };
                proof {
                    assert(replacement@ == with_comment(es[i as int], None));
                }
                self.entries[i] = replacement;
                proof {
                    lemma_delete_comment_found(es, key@, i as int);
                    assert(entries_view(self.entries@) =~= es.update(
                        i as int,
                        with_comment(es[i as int], None),
                    ));
                }
                return;
            }
            i += 1;
        }
        proof {
            lemma_set_comment_missing(es, key@, Seq::empty());
        }
    }

    /// The text this document serializes to, as `spec_render` states it.
    pub fn render(&self) -> (r: String)
        ensures
            r@ == spec_render(self@),
    {
        let ghost hv = strings_view(self.header@);
        let ghost ev = entries_view(self.entries@);
        let mut out = String::new();
        proof {
            reveal_strlit("# ");
            reveal_strlit("\n");
            reveal_strlit("=");
            reveal_strlit(" # ");
            assert(("# ")@ =~= seq!['#', ' ']);
            assert(("\n")@ =~= seq!['\n']);
            assert(("=")@ =~= seq!['=']);
            assert((" # ")@ =~= seq![' ', '#', ' ']);
        }
        let hn = self.header.len();
        if hn > 0 {
            let mut i: usize = 0;
            proof {
                assert(hv.take(0) =~= Seq::<Seq<char>>::empty());
                assert(out@ =~= render_header(hv.take(0)));
            }
            while i < hn
                invariant
                    i <= hn,
                    hn == self.header@.len(),
                    hv == strings_view(self.header@),
                    ("# ")@ == seq!['#', ' '],
                    ("\n")@ == seq!['\n'],
                    out@ == render_header(hv.take(i as int)),
                decreases hn - i,
            {
                out.append("# ");
                out.append(self.header[i].as_str());
                out.append("\n");
                proof {
                    lemma_render_header_append(hv.take(i as int), seq![hv[i as int]]);
                    assert(hv.take(i as int) + seq![hv[i as int]] =~= hv.take(i as int + 1));
                    assert(seq![hv[i as int]].drop_first() =~= Seq::<Seq<char>>::empty());
                    assert(render_header(Seq::<Seq<char>>::empty()) == Seq::<char>::empty());
                    assert(render_header(seq![hv[i as int]]) =~= seq!['#', ' '] + hv[i as int]
                        + seq!['\n']);
                    assert(out@ =~= render_header(hv.take(i as int + 1)));
                }
                i += 1;
            }
            out.append("\n");
            proof {
                assert(hv.take(hn as int) =~= hv);
            }
        }
        let ghost base = out@;
        let en = self.entries.len();
        let mut j: usize = 0;
        proof {
            assert(ev.take(0) =~= Seq::<SpecEntry>::empty());
            assert(base + render_entries(ev.take(0)) =~= out@);
        }
        while j < en
            invariant
                j <= en,
                en == self.entries@.len(),
                ev == entries_view(self.entries@),
                ("\n")@ == seq!['\n'],
                ("=")@ == seq!['='],
                (" # ")@ == seq![' ', '#', ' '],
                out@ == base + render_entries(ev.take(j as int)),
            decreases en - j,
        {
            match &self.entries[j] {
                Entry::KeyValue { key, value, comment } => {
                    out.append(key.as_str());
                    out.append("=");
                    out.append(value.as_str());
                    match comment {
                        Some(c) => {
                            out.append(" # ");
                            out.append(c.as_str());
                        }
                        None => {}
                    }
                    out.append("\n");
                }
                Entry::Comment(c) => {
                    out.append(c.as_str());
                    out.append("\n");
                }
                Entry::Blank => {
                    out.append("\n");
                }
            }
            proof {
                lemma_render_entries_append(ev.take(j as int), seq![ev[j as int]]);
                assert(ev.take(j as int) + seq![ev[j as int]] =~= ev.take(j as int + 1));
                assert(seq![ev[j as int]].drop_first() =~= Seq::<SpecEntry>::empty());
                assert(render_entries(Seq::<SpecEntry>::empty()) == Seq::<char>::empty());
                assert(render_entries(seq![ev[j as int]]) =~= render_entry(ev[j as int]));
                assert(out@ =~= base + render_entries(ev.take(j as int + 1)));
            }
            j += 1;
        }
        proof {
            assert(ev.take(en as int) =~= ev);
            if hv.len() == 0 {
                assert(base =~= Seq::<char>::empty());
                assert(out@ =~= spec_render(self@));
            } else {
                assert(out@ =~= spec_render(self@));
            }
        }
        out
    }

    /// Builds the document raw text yields, as `spec_parse` states it, or
    /// reports the first invalid line.
    pub fn parse(content: &str) -> (r: Result<EnvFile, ParseError>)
        ensures
            match r {
                Ok(env) => spec_parse(content@) == Ok::<SpecDoc, SpecParseError>(env@),
                Err(pe) => spec_parse(content@) == Err::<SpecDoc, SpecParseError>(pe@),
            },
    {
        let lines = split_str(content);
        let ghost ls = split_lines(content@);
        let n = lines.len();
        let mut header: Vec<String> = Vec::new();
        let mut entries: Vec<Entry> = Vec::new();
        let mut found = false;
        let mut i: usize = 0;
        proof {
            assert(ls.skip(0) =~= ls);
            assert(strings_view(header@) =~= Seq::<Seq<char>>::empty());
            if let Ok(d) = spec_parse_doc(ls) {
                assert(strings_view(header@) + d.header =~= d.header);
                assert(SpecDoc { header: strings_view(header@) + d.header, entries: d.entries }
                    =~= d);
            }
        }
        while i < n
            invariant
                i <= n,
                n == lines@.len(),
                ls == split_lines(content@),
                crate::text::views_of(lines@) == ls,
                !found ==> entries@.len() == 0,
                !found ==> spec_parse_doc(ls) == (match spec_parse_doc(ls.skip(i as int)) {
                    Ok(d) => Ok::<SpecDoc, SpecParseError>(
                        (SpecDoc {
                            header: strings_view(header@) + d.header,
                            entries: d.entries,
                        }),
                    ),
                    Err(e) => Err::<SpecDoc, SpecParseError>(e),
                }),
                found ==> spec_parse_doc(ls) == (match spec_parse_body(ls.skip(i as int)) {
                    Ok(es) => Ok::<SpecDoc, SpecParseError>(
                        (SpecDoc {
                            header: strings_view(header@),
                            entries: entries_view(entries@) + es,
                        }),
                    ),
                    Err(bad) => Err::<SpecDoc, SpecParseError>(
                        (SpecParseError::InvalidLine { line: bad }),
                    ),
                }),
            decreases n - i,
        {
            let line = lines[i];
            proof {
                assert(line@ == ls[i as int]);
                assert(ls.skip(i as int)[0] == ls[i as int]);
                assert(ls.skip(i as int).drop_first() =~= ls.skip(i as int + 1));
            }
            if !found {
                let t = trim_str(line);
                if t.unicode_len() == 0 {
                    // A blank line before the first key is dropped.
                } else if t.get_char(0) == '#' {
                    let ghost h0 = header@;
                    header.push(header_line_content(line));
                    proof {
                        assert(strings_view(header@) =~= strings_view(h0).push(
                            header_content(line@),
                        ));
                        if let Ok(d) = spec_parse_doc(ls.skip(i as int + 1)) {
                            assert(strings_view(h0) + (seq![header_content(line@)] + d.header)
                                =~= strings_view(header@) + d.header);
                        }
                    }
                } else {
                    match parse_key_value(line) {
                        Some((k, v, c)) => {
                            let ghost e0 = SpecEntry::KeyValue {
                                key: k@,
                                value: v@,
                                comment: opt_view(c),
                            };
                            entries.push(Entry::KeyValue { key: k, value: v, comment: c });
                            found = true;
                            proof {
                                assert(trim(line@).len() > 0);
                                assert(trim(line@)[0] != '#');
                                assert(spec_parse_line(line@) == Some(e0));
                                assert(entries_view(entries@) =~= seq![e0]);
                                if let Ok(es2) = spec_parse_body(ls.skip(i as int + 1)) {
                                    assert(seq![e0] + es2 =~= entries_view(entries@) + es2);
                                }
                            }
                        }
                        None => {
                            proof {
                                assert(trim(line@).len() > 0);
                                assert(trim(line@)[0] != '#');
                                assert(spec_parse_doc(ls.skip(i as int))
                                    == Err::<SpecDoc, SpecParseError>(
                                    (SpecParseError::InvalidHeaderLine { line: line@ }),
                                ));
                            }
                            return Err(ParseError::InvalidHeaderLine {
                                line: String::from_str(line),
                            });
                        }
                    }
                }
            } else {
                match parse_line(line) {
                    Ok(e) => {
                        let ghost ent0 = entries@;
                        let ghost enew = e@;
                        entries.push(e);
                        proof {
                            assert(entries_view(entries@) =~= entries_view(ent0).push(enew));
                            if let Ok(es2) = spec_parse_body(ls.skip(i as int + 1)) {
                                assert(entries_view(ent0) + (seq![enew] + es2) =~= entries_view(
                                    entries@,
                                ) + es2);
                            }
                        }
                    }
                    Err(pe) => {
                        return Err(pe);
                    }
                }
            }
            i += 1;
        }
        proof {
            assert(ls.skip(n as int) =~= Seq::<Seq<char>>::empty());
            assert(spec_parse_body(Seq::<Seq<char>>::empty()) == Ok::<Seq<SpecEntry>, Seq<char>>(
                Seq::empty(),
            ));
            if found {
                assert(entries_view(entries@) + Seq::<SpecEntry>::empty() =~= entries_view(
                    entries@,
                ));
            } else {
                assert(strings_view(header@) + Seq::<Seq<char>>::empty() =~= strings_view(
                    header@,
                ));
                assert(entries_view(entries@) =~= Seq::<SpecEntry>::empty());
            }
        }
        Ok(EnvFile { header, entries })
    }

    /// Empties the header block.
    pub fn delete_header(&mut self)
        ensures
            final(self)@.header == Seq::<Seq<char>>::empty(),
            final(self)@.entries == old(self)@.entries,
    {
        self.header.clear();
        proof {
            assert(strings_view(self.header@) =~= Seq::<Seq<char>>::empty());
        }
    }
}

} // verus!
