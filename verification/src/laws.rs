//! The guarantees that relate the store operations and the parser to the
//! serializer, proved once and for all over the mathematical model.

use vstd::prelude::*;

use crate::entry::{header_content, spec_parse_key_value, spec_parse_line, SpecEntry};
use crate::env_file::{
    is_key_entry, render_entries, render_entry, render_header, spec_delete_comment,
    spec_delete_key, spec_get_comment, spec_get_header, spec_get_value, spec_list_keys,
    spec_parse, spec_parse_body, spec_parse_doc, spec_render, spec_set_comment, spec_set_value,
    SpecDoc,
};
use crate::text::{
    find_char, is_space, lemma_find_char_none, lemma_find_char_some, lemma_lines_text_split,
    lemma_split_lines_no_nl, lemma_split_lines_prepend, lemma_trim_fixed, lemma_trim_head,
    lemma_trim_no_char, lemma_trim_props, no_nl, split_lines, trim, trim_end, trim_start,
};

verus! {

/// A key a key/value line can carry back unchanged: non-empty, already
/// trimmed, not opening a comment, and free of `'='` and line terminators.
pub open spec fn valid_key(k: Seq<char>) -> bool {
    k.len() > 0 && trim(k) == k && k[0] != '#' && (forall|i: int|
        0 <= i < k.len() ==> k[i] != '=') && no_nl(k)
}

/// A value a key/value line can carry back unchanged: already trimmed and
/// free of `'#'` and line terminators.
pub open spec fn valid_value(v: Seq<char>) -> bool {
    trim(v) == v && (forall|i: int| 0 <= i < v.len() ==> v[i] != '#') && no_nl(v)
}

/// A comment a key/value line can carry back unchanged: non-empty, already
/// trimmed, and free of line terminators.
pub open spec fn valid_comment(c: Seq<char>) -> bool {
    c.len() > 0 && trim(c) == c && no_nl(c)
}

/// An entry whose serialized line parses back to exactly the entry.
pub open spec fn valid_entry(e: SpecEntry) -> bool {
    match e {
        SpecEntry::KeyValue { key, value, comment } => valid_key(key) && valid_value(value)
            && (match comment {
            Some(c) => valid_comment(c),
            None => true,
        }),
        SpecEntry::Comment(c) => trim(c).len() > 0 && trim(c)[0] == '#' && no_nl(c),
        SpecEntry::Blank => true,
    }
}

/// A header line whose serialized form parses back to exactly the line: no
/// trailing whitespace and no line terminator.
pub open spec fn valid_header_line(h: Seq<char>) -> bool {
    trim_end(h) == h && no_nl(h)
}

/// A document whose serialized text parses back to exactly the document:
/// every part carries back unchanged, and the body opens with a key/value
/// entry (or is empty), so no body line is mistaken for header.
pub open spec fn renderable(d: SpecDoc) -> bool {
    (forall|i: int| 0 <= i < d.header.len() ==> valid_header_line(#[trigger] d.header[i])) && (
    forall|i: int| 0 <= i < d.entries.len() ==> valid_entry(#[trigger] d.entries[i]))
        && (d.entries.len() > 0 ==> d.entries[0] is KeyValue)
}

/// The line an entry serializes to, without its terminator.
pub open spec fn entry_line(e: SpecEntry) -> Seq<char> {
    match e {
        SpecEntry::KeyValue { key, value, comment } => match comment {
            Some(c) => key + seq!['='] + value + seq![' ', '#', ' '] + c,
            None => key + seq!['='] + value,
        },
        SpecEntry::Comment(c) => c,
        SpecEntry::Blank => Seq::empty(),
    }
}

/// `render_entry` is `entry_line` plus one terminator.
pub proof fn lemma_render_entry_is_line(e: SpecEntry)
    ensures
        render_entry(e) == entry_line(e) + seq!['\n'],
{
    match e {
        SpecEntry::KeyValue { key, value, comment } => match comment {
            Some(c) => {
                assert(render_entry(e) =~= entry_line(e) + seq!['\n']);
            }
            None => {
                assert(render_entry(e) =~= entry_line(e) + seq!['\n']);
            }
        },
        SpecEntry::Comment(c) => {
            assert(render_entry(e) =~= entry_line(e) + seq!['\n']);
        }
        SpecEntry::Blank => {
            assert(render_entry(e) =~= entry_line(e) + seq!['\n']);
        }
    }
}

/// A sequence that is already trimmed keeps itself under `trim_end`.
proof fn lemma_trimmed_trim_end(v: Seq<char>)
    requires
        trim(v) == v,
        v.len() > 0,
    ensures
        trim_end(v) == v,
        trim_start(v) == v,
        !is_space(v[0]),
        !is_space(v[v.len() - 1]),
{
    lemma_trim_props(v);
    assert(trim_start(v) == v);
}

/// The serialized line of a well-formed key/value entry parses back to
/// exactly its parts.
pub proof fn lemma_key_value_line(key: Seq<char>, value: Seq<char>, comment: Option<Seq<char>>)
    requires
        valid_key(key),
        valid_value(value),
        comment matches Some(c) ==> valid_comment(c),
    ensures
        trim(entry_line(SpecEntry::KeyValue { key, value, comment })) == entry_line(
            SpecEntry::KeyValue { key, value, comment },
        ),
        entry_line(SpecEntry::KeyValue { key, value, comment }).len() > 0,
        entry_line(SpecEntry::KeyValue { key, value, comment })[0] != '#',
        spec_parse_key_value(entry_line(SpecEntry::KeyValue { key, value, comment })) == Some(
            (key, value, comment),
        ),
        spec_parse_line(entry_line(SpecEntry::KeyValue { key, value, comment })) == Some(
            SpecEntry::KeyValue { key, value, comment },
        ),
{
    let e = SpecEntry::KeyValue { key, value, comment };
    let line = entry_line(e);
    lemma_trim_props(key);
    assert(!is_space(key[0]));
    assert(line[0] == key[0]);
    // The first '=' closes the key.
    assert forall|j: int| 0 <= j < key.len() implies line[j] != '=' by {
        assert(line[j] == key[j]);
    }
    assert(line[key.len() as int] == '=');
    lemma_find_char_some(line, '=', key.len() as int);
    assert(line.subrange(0, key.len() as int) =~= key);
    let rest = line.subrange(key.len() as int + 1, line.len() as int);
    match comment {
        None => {
            assert(rest =~= value);
            lemma_find_char_none(rest, '#');
            assert(line[line.len() - 1] == if value.len() > 0 {
                value[value.len() - 1]
            } else {
                '='
            });
            if value.len() > 0 {
                lemma_trimmed_trim_end(value);
            }
            lemma_trim_fixed(line);
        }
        Some(c) => {
            assert(rest =~= value + seq![' ', '#', ' '] + c);
            // The first '#' of the remainder opens the comment.
            assert forall|j: int| 0 <= j < value.len() + 1 implies rest[j] != '#' by {
                if j < value.len() {
                    assert(rest[j] == value[j]);
                } else {
                    assert(rest[j] == ' ');
                }
            }
            assert(rest[value.len() as int + 1] == '#');
            lemma_find_char_some(rest, '#', value.len() as int + 1);
            // The value part reads back: trimming drops only the added space.
            let vs = rest.subrange(0, value.len() as int + 1);
            assert(vs =~= value + seq![' ']);
            if value.len() == 0 {
                lemma_trim_props(vs);
                assert(forall|i: int| 0 <= i < vs.len() ==> is_space(vs[i]));
                assert(trim(vs).len() == 0);
                assert(trim(vs) =~= value);
            } else {
                lemma_trimmed_trim_end(value);
                assert(vs[0] == value[0]);
                assert(trim_start(vs) == vs);
                assert(is_space(vs[vs.len() - 1]));
                assert(vs.drop_last() =~= value);
                assert(trim_end(vs) == trim_end(value));
                assert(trim(vs) == value);
            }
            // The comment part reads back: trimming drops only the added space.
            let cs = rest.subrange(value.len() as int + 2, rest.len() as int);
            assert(cs =~= seq![' '] + c);
            lemma_trimmed_trim_end(c);
            assert(is_space(cs[0]));
            assert(cs.drop_first() =~= c);
            assert(trim_start(cs) == trim_start(c));
            assert(trim_start(c) == c);
            assert(trim(cs) == c);
            assert(line[line.len() - 1] == c[c.len() - 1]);
            lemma_trim_fixed(line);
        }
    }
}

/// A well-formed entry's line is terminator-free and parses back to exactly
/// the entry.
pub proof fn lemma_entry_round(e: SpecEntry)
    requires
        valid_entry(e),
    ensures
        no_nl(entry_line(e)),
        spec_parse_line(entry_line(e)) == Some(e),
{
    match e {
        SpecEntry::KeyValue { key, value, comment } => {
            lemma_key_value_line(key, value, comment);
            let line = entry_line(e);
            assert forall|j: int| 0 <= j < line.len() implies line[j] != '\n' by {
                match comment {
                    Some(c) => {
                        assert(line =~= key + seq!['='] + value + seq![' ', '#', ' '] + c);
                    }
                    None => {
                        assert(line =~= key + seq!['='] + value);
                    }
                }
            }
        }
        SpecEntry::Comment(c) => {
            assert(entry_line(e) == c);
        }
        SpecEntry::Blank => {
            assert(trim_start(Seq::<char>::empty()) == Seq::<char>::empty());
            assert(trim(entry_line(e)).len() == 0);
        }
    }
}

/// The serialized body of a list of well-formed entries parses back to
/// exactly those entries.
pub proof fn lemma_body_round(es: Seq<SpecEntry>)
    requires
        forall|i: int| 0 <= i < es.len() ==> valid_entry(#[trigger] es[i]),
    ensures
        spec_parse_body(split_lines(render_entries(es))) == Ok::<Seq<SpecEntry>, Seq<char>>(es),
    decreases es.len(),
{
    if es.len() == 0 {
        assert(split_lines(render_entries(es)) =~= Seq::<Seq<char>>::empty());
        assert(spec_parse_body(Seq::<Seq<char>>::empty()) == Ok::<Seq<SpecEntry>, Seq<char>>(
            Seq::empty(),
        ));
        assert(es =~= Seq::<SpecEntry>::empty());
    } else {
        let e0 = es[0];
        let df = es.drop_first();
        lemma_entry_round(e0);
        lemma_render_entry_is_line(e0);
        assert forall|i: int| 0 <= i < df.len() implies valid_entry(#[trigger] df[i]) by {
            assert(df[i] == es[i + 1]);
        }
        lemma_body_round(df);
        assert(render_entries(es) =~= entry_line(e0) + seq!['\n'] + render_entries(df));
        lemma_split_lines_prepend(entry_line(e0), render_entries(df));
        let lines = seq![entry_line(e0)] + split_lines(render_entries(df));
        assert(split_lines(render_entries(es)) == lines);
        assert(lines[0] == entry_line(e0));
        assert(lines.drop_first() =~= split_lines(render_entries(df)));
        assert(seq![e0] + df =~= es);
    }
}

/// Parsing the body text of a well-formed document yields exactly its
/// entries, under an empty header.
proof fn lemma_body_doc_round(es: Seq<SpecEntry>)
    requires
        forall|i: int| 0 <= i < es.len() ==> valid_entry(#[trigger] es[i]),
        es.len() > 0 ==> es[0] is KeyValue,
    ensures
        spec_parse_doc(split_lines(render_entries(es))) == Ok::<SpecDoc, crate::entry::SpecParseError>(
            (SpecDoc { header: Seq::empty(), entries: es }),
        ),
{
    lemma_body_round(es);
    if es.len() == 0 {
        assert(split_lines(render_entries(es)) =~= Seq::<Seq<char>>::empty());
    } else {
        let e0 = es[0];
        match e0 {
            SpecEntry::KeyValue { key, value, comment } => {
                lemma_key_value_line(key, value, comment);
            }
            _ => {}
        }
        lemma_render_entry_is_line(e0);
        let df = es.drop_first();
        assert forall|i: int| 0 <= i < df.len() implies valid_entry(#[trigger] df[i]) by {
            assert(df[i] == es[i + 1]);
        }
        lemma_entry_round(e0);
        assert(render_entries(es) =~= entry_line(e0) + seq!['\n'] + render_entries(df));
        lemma_split_lines_prepend(entry_line(e0), render_entries(df));
        let lines = split_lines(render_entries(es));
        assert(lines[0] == entry_line(e0));
        // The first line is a key/value line, so the whole list is body.
        assert(trim(lines[0]).len() > 0);
        assert(trim(lines[0])[0] != '#');
        assert(spec_parse_key_value(lines[0]) is Some);
    }
}

/// Prepending the serialized form of well-formed header lines to parseable
/// text prepends exactly those lines to the parsed header.
proof fn lemma_header_prepend(h: Seq<Seq<char>>, t: Seq<char>, d0: SpecDoc)
    requires
        forall|i: int| 0 <= i < h.len() ==> valid_header_line(#[trigger] h[i]),
        spec_parse_doc(split_lines(t)) == Ok::<SpecDoc, crate::entry::SpecParseError>(d0),
    ensures
        spec_parse_doc(split_lines(render_header(h) + t)) == Ok::<SpecDoc, crate::entry::SpecParseError>(
            (SpecDoc { header: h + d0.header, entries: d0.entries }),
        ),
    decreases h.len(),
{
    if h.len() == 0 {
        assert(render_header(h) + t =~= t);
        assert(h + d0.header =~= d0.header);
        assert((SpecDoc { header: h + d0.header, entries: d0.entries }) =~= d0);
    } else {
        let h0 = h[0];
        let hd = h.drop_first();
        let hline = seq!['#', ' '] + h0;
        assert forall|i: int| 0 <= i < hd.len() implies valid_header_line(#[trigger] hd[i]) by {
            assert(hd[i] == h[i + 1]);
        }
        lemma_header_prepend(hd, t, d0);
        assert(render_header(h) + t =~= hline + seq!['\n'] + (render_header(hd) + t));
        assert(no_nl(hline));
        lemma_split_lines_prepend(hline, render_header(hd) + t);
        let lines = seq![hline] + split_lines(render_header(hd) + t);
        assert(split_lines(render_header(h) + t) == lines);
        assert(lines[0] == hline);
        assert(lines.drop_first() =~= split_lines(render_header(hd) + t));
        // The line's trim keeps the '#' and, for non-empty content, all of it.
        if h0.len() == 0 {
            assert(hline =~= seq!['#', ' ']);
            assert(trim_start(hline) == hline);
            assert(is_space(hline[1]));
            assert(hline.drop_last() =~= seq!['#']);
            assert(trim_end(seq!['#']) == seq!['#']);
            assert(trim_end(hline) == seq!['#']);
            assert(trim(hline) =~= seq!['#']);
            assert(trim(hline).drop_first() =~= Seq::<char>::empty());
            assert(header_content(hline) =~= h0);
        } else {
            crate::text::lemma_trim_end_shape(h0);
            assert(!is_space(h0[h0.len() - 1]));
            assert(hline[hline.len() - 1] == h0[h0.len() - 1]);
            lemma_trim_fixed(hline);
            assert(trim(hline) == hline);
            assert(trim(hline).drop_first() =~= seq![' '] + h0);
            assert((seq![' '] + h0)[0] == ' ');
            assert((seq![' '] + h0).drop_first() =~= h0);
            assert(header_content(hline) == h0);
        }
        assert(trim(hline).len() > 0);
        assert(trim(hline)[0] == '#');
        assert(seq![header_content(hline)] + (hd + d0.header) =~= h + d0.header);
        assert((SpecDoc { header: seq![header_content(hline)] + (hd + d0.header), entries: d0.entries })
            =~= (SpecDoc { header: h + d0.header, entries: d0.entries }));
    }
}

/// The round trip: serializing a well-formed document and parsing the text
/// back yields exactly the document. Every text the serializer can emit is
/// therefore reproduced byte for byte by a parse-then-render pass.
pub proof fn lemma_render_then_parse(d: SpecDoc)
    requires
        renderable(d),
    ensures
        spec_parse(spec_render(d)) == Ok::<SpecDoc, crate::entry::SpecParseError>(d),
{
    lemma_body_doc_round(d.entries);
    if d.header.len() == 0 {
        assert(spec_render(d) == render_entries(d.entries));
        assert((SpecDoc { header: Seq::empty(), entries: d.entries }) =~= d);
    } else {
        let t = seq!['\n'] + render_entries(d.entries);
        assert(no_nl(Seq::<char>::empty()));
        lemma_split_lines_prepend(Seq::empty(), render_entries(d.entries));
        assert(Seq::<char>::empty() + seq!['\n'] + render_entries(d.entries) =~= t);
        assert(split_lines(t) == seq![Seq::<char>::empty()] + split_lines(
            render_entries(d.entries),
        ));
        let lines = split_lines(t);
        assert(lines[0] == Seq::<char>::empty());
        assert(trim_start(Seq::<char>::empty()) == Seq::<char>::empty());
        assert(trim(lines[0]).len() == 0);
        assert(lines.drop_first() =~= split_lines(render_entries(d.entries)));
        assert(spec_parse_doc(split_lines(t)) == Ok::<SpecDoc, crate::entry::SpecParseError>(
            (SpecDoc { header: Seq::empty(), entries: d.entries }),
        ));
        lemma_header_prepend(d.header, t, SpecDoc { header: Seq::empty(), entries: d.entries });
        assert(render_header(d.header) + t =~= spec_render(d));
        assert(d.header + Seq::<Seq<char>>::empty() =~= d.header);
        assert((SpecDoc { header: d.header + Seq::<Seq<char>>::empty(), entries: d.entries })
            =~= d);
    }
}

/// Whatever the line classifier accepts from terminator-free text is a
/// well-formed entry.
proof fn lemma_parse_line_valid(l: Seq<char>, e: SpecEntry)
    requires
        no_nl(l),
        spec_parse_line(l) == Some(e),
    ensures
        valid_entry(e),
{
    lemma_trim_props(l);
    if trim(l).len() == 0 {
    } else if trim(l)[0] == '#' {
    } else {
        match find_char(l, '=') {
            None => {
                assert(false);
            }
            Some(eqi) => {
                lemma_find_char_some(l, '=', eqi);
                let sub = l.subrange(0, eqi);
                let k = trim(sub);
                lemma_trim_props(sub);
                assert forall|j: int| 0 <= j < sub.len() implies sub[j] != '=' by {
                    assert(sub[j] == l[j]);
                }
                assert forall|j: int| 0 <= j < sub.len() implies sub[j] != '\n' by {
                    assert(sub[j] == l[j]);
                }
                lemma_trim_no_char(sub, '=');
                lemma_trim_no_char(sub, '\n');
                assert(k.len() > 0);
                // The key's first character is the line's first non-space
                // character, which the comment test already saw.
                lemma_trim_head(sub);
                lemma_trim_head(l);
                let fs = sub.len() - trim_start(sub).len();
                let fl = l.len() - trim_start(l).len();
                assert(sub[fs] == l[fs]);
                if fs < fl {
                    assert(is_space(l[fs]));
                }
                if fl < fs {
                    assert(sub[fl] == l[fl]);
                    assert(is_space(sub[fl]));
                }
                assert(fs == fl);
                assert(k[0] == trim(l)[0]);
                assert(valid_key(k));
                let rest = l.subrange(eqi + 1, l.len() as int);
                assert forall|j: int| 0 <= j < rest.len() implies rest[j] != '\n' by {
                    assert(rest[j] == l[eqi + 1 + j]);
                }
                match find_char(rest, '#') {
                    Some(hi) => {
                        lemma_find_char_some(rest, '#', hi);
                        let vsub = rest.subrange(0, hi);
                        lemma_trim_props(vsub);
                        assert forall|j: int| 0 <= j < vsub.len() implies vsub[j] != '#' by {
                            assert(vsub[j] == rest[j]);
                        }
                        assert forall|j: int| 0 <= j < vsub.len() implies vsub[j] != '\n' by {
                            assert(vsub[j] == rest[j]);
                        }
                        lemma_trim_no_char(vsub, '#');
                        lemma_trim_no_char(vsub, '\n');
                        assert(valid_value(trim(vsub)));
                        let csub = rest.subrange(hi + 1, rest.len() as int);
                        lemma_trim_props(csub);
                        assert forall|j: int| 0 <= j < csub.len() implies csub[j] != '\n' by {
                            assert(csub[j] == rest[hi + 1 + j]);
                        }
                        lemma_trim_no_char(csub, '\n');
                        if trim(csub).len() > 0 {
                            assert(valid_comment(trim(csub)));
                        }
                    }
                    None => {
                        lemma_find_char_none(rest, '#');
                        lemma_trim_props(rest);
                        lemma_trim_no_char(rest, '#');
                        lemma_trim_no_char(rest, '\n');
                        assert(valid_value(trim(rest)));
                    }
                }
            }
        }
    }
}

/// Whatever the body parser accepts from terminator-free lines is, entry by
/// entry, what the line classifier yields, and well formed.
proof fn lemma_parse_body_valid(lines: Seq<Seq<char>>)
    requires
        forall|i: int| 0 <= i < lines.len() ==> no_nl(#[trigger] lines[i]),
    ensures
        spec_parse_body(lines) matches Ok(es) ==> es.len() == lines.len() && (forall|i: int|
            0 <= i < es.len() ==> spec_parse_line(lines[i]) == Some(#[trigger] es[i]))
            && (forall|i: int| 0 <= i < es.len() ==> valid_entry(#[trigger] es[i])),
    decreases lines.len(),
{
    if lines.len() > 0 {
        match spec_parse_line(lines[0]) {
            None => {}
            Some(e) => {
                let dl = lines.drop_first();
                assert forall|i: int| 0 <= i < dl.len() implies no_nl(#[trigger] dl[i]) by {
                    assert(dl[i] == lines[i + 1]);
                }
                lemma_parse_body_valid(dl);
                match spec_parse_body(dl) {
                    Err(_) => {}
                    Ok(tail_es) => {
                        lemma_parse_line_valid(lines[0], e);
                        let es = seq![e] + tail_es;
                        assert forall|i: int| 0 <= i < es.len() implies spec_parse_line(lines[i])
                            == Some(#[trigger] es[i]) && valid_entry(es[i]) by {
                            if i == 0 {
                                assert(es[0] == e);
                            } else {
                                assert(es[i] == tail_es[i - 1]);
                                assert(lines[i] == dl[i - 1]);
                            }
                        }
                    }
                }
            }
        }
    }
}

/// Whatever the document parser accepts from terminator-free lines is a
/// well-formed document.
proof fn lemma_parse_doc_renderable(lines: Seq<Seq<char>>)
    requires
        forall|i: int| 0 <= i < lines.len() ==> no_nl(#[trigger] lines[i]),
    ensures
        spec_parse_doc(lines) matches Ok(d) ==> renderable(d),
    decreases lines.len(),
{
    if lines.len() == 0 {
    } else {
        let l = lines[0];
        let dl = lines.drop_first();
        assert forall|i: int| 0 <= i < dl.len() implies no_nl(#[trigger] dl[i]) by {
            assert(dl[i] == lines[i + 1]);
        }
        if trim(l).len() == 0 {
            lemma_parse_doc_renderable(dl);
        } else if trim(l)[0] == '#' {
            lemma_parse_doc_renderable(dl);
            match spec_parse_doc(dl) {
                Err(_) => {}
                Ok(d0) => {
                    // The contributed header line has no trailing whitespace
                    // and no terminator.
                    lemma_trim_props(l);
                    lemma_trim_no_char(l, '\n');
                    let t = trim(l);
                    let after = t.drop_first();
                    assert(!is_space(t[t.len() - 1]));
                    let hc = header_content(l);
                    assert forall|j: int| 0 <= j < hc.len() implies hc[j] != '\n' by {
                        if after.len() > 0 && after[0] == ' ' {
                            assert(hc[j] == t[j + 2]);
                        } else {
                            assert(hc[j] == t[j + 1]);
                        }
                    }
                    if hc.len() > 0 {
                        assert(hc[hc.len() - 1] == t[t.len() - 1]);
                        assert(trim_end(hc) == hc);
                    } else {
                        assert(trim_end(hc) == hc);
                    }
                    assert(valid_header_line(hc));
                    let h2 = seq![hc] + d0.header;
                    assert forall|i: int| 0 <= i < h2.len() implies valid_header_line(
                        #[trigger] h2[i],
                    ) by {
                        if i > 0 {
                            assert(h2[i] == d0.header[i - 1]);
                        }
                    }
                }
            }
        } else if spec_parse_key_value(l) is Some {
            lemma_parse_body_valid(lines);
            match spec_parse_body(lines) {
                Err(_) => {}
                Ok(es) => {
                    assert(spec_parse_line(l) == Some(es[0]));
                    assert(es[0] is KeyValue);
                }
            }
        }
    }
}

/// Every successfully parsed document is well formed, so serializing it and
/// parsing again gives the document back: parse-then-render stabilizes after
/// one pass.
pub proof fn lemma_parse_render_idempotent(t: Seq<char>, d: SpecDoc)
    requires
        spec_parse(t) == Ok::<SpecDoc, crate::entry::SpecParseError>(d),
    ensures
        renderable(d),
        spec_parse(spec_render(d)) == Ok::<SpecDoc, crate::entry::SpecParseError>(d),
{
    lemma_split_lines_no_nl(t);
    lemma_parse_doc_renderable(split_lines(t));
    lemma_render_then_parse(d);
}

/// Setting a value then reading the same key yields exactly that value.
pub proof fn lemma_set_then_get(es: Seq<SpecEntry>, key: Seq<char>, value: Seq<char>)
    ensures
        spec_get_value(spec_set_value(es, key, value), key) == Some(value),
    decreases es.len(),
{
    if es.len() == 0 {
        let e = SpecEntry::KeyValue { key, value, comment: None };
        assert(spec_set_value(es, key, value) == seq![e]);
        assert(seq![e][0] == e);
    } else if is_key_entry(es[0], key) {
        match es[0] {
            SpecEntry::KeyValue { key: k, comment, .. } => {
                let e = SpecEntry::KeyValue { key: k, value, comment };
                assert((seq![e] + es.drop_first())[0] == e);
            }
            _ => {}
        }
    } else {
        lemma_set_then_get(es.drop_first(), key, value);
        let tail = spec_set_value(es.drop_first(), key, value);
        assert((seq![es[0]] + tail)[0] == es[0]);
        assert((seq![es[0]] + tail).drop_first() =~= tail);
    }
}

/// Setting a value never alters any comment: every key's comment reads the
/// same before and after.
pub proof fn lemma_set_value_preserves_comment(
    es: Seq<SpecEntry>,
    key: Seq<char>,
    value: Seq<char>,
    probe: Seq<char>,
)
    ensures
        spec_get_comment(spec_set_value(es, key, value), probe) == spec_get_comment(es, probe),
    decreases es.len(),
{
    if es.len() == 0 {
        let e = SpecEntry::KeyValue { key, value, comment: None };
        assert(spec_set_value(es, key, value) == seq![e]);
        assert(seq![e][0] == e);
        assert(seq![e].drop_first() =~= Seq::<SpecEntry>::empty());
        assert(spec_get_comment(Seq::<SpecEntry>::empty(), probe) is None);
    } else if is_key_entry(es[0], key) {
        match es[0] {
            SpecEntry::KeyValue { key: k, comment, .. } => {
                let e = SpecEntry::KeyValue { key: k, value, comment };
                assert((seq![e] + es.drop_first())[0] == e);
                assert((seq![e] + es.drop_first()).drop_first() =~= es.drop_first());
            }
            _ => {}
        }
    } else {
        lemma_set_value_preserves_comment(es.drop_first(), key, value, probe);
        let tail = spec_set_value(es.drop_first(), key, value);
        assert((seq![es[0]] + tail)[0] == es[0]);
        assert((seq![es[0]] + tail).drop_first() =~= tail);
    }
}

/// Deleting a key leaves neither a value nor a comment to read for it.
pub proof fn lemma_delete_key_removes(es: Seq<SpecEntry>, key: Seq<char>)
    ensures
        spec_get_value(spec_delete_key(es, key), key) is None,
        spec_get_comment(spec_delete_key(es, key), key) is None,
    decreases es.len(),
{
    if es.len() == 0 {
    } else {
        lemma_delete_key_removes(es.drop_first(), key);
        let tail = spec_delete_key(es.drop_first(), key);
        if !is_key_entry(es[0], key) {
            assert((seq![es[0]] + tail)[0] == es[0]);
            assert((seq![es[0]] + tail).drop_first() =~= tail);
        }
    }
}

/// Deleting a comment clears only the comment: every key's value reads the
/// same, and the key's comment reads as absent.
pub proof fn lemma_delete_comment_narrow(es: Seq<SpecEntry>, key: Seq<char>, probe: Seq<char>)
    ensures
        spec_get_value(spec_delete_comment(es, key), probe) == spec_get_value(es, probe),
        spec_get_comment(spec_delete_comment(es, key), key) is None,
    decreases es.len(),
{
    if es.len() == 0 {
        assert(spec_delete_comment(es, key) =~= es);
    } else if is_key_entry(es[0], key) {
        match es[0] {
            SpecEntry::KeyValue { key: k, value, .. } => {
                let e = SpecEntry::KeyValue { key: k, value, comment: None };
                assert((seq![e] + es.drop_first())[0] == e);
                assert((seq![e] + es.drop_first()).drop_first() =~= es.drop_first());
            }
            _ => {}
        }
    } else {
        lemma_delete_comment_narrow(es.drop_first(), key, probe);
        let tail = spec_delete_comment(es.drop_first(), key);
        assert((seq![es[0]] + tail)[0] == es[0]);
        assert((seq![es[0]] + tail).drop_first() =~= tail);
    }
}

/// Setting the comment of a present key then reading it yields exactly that
/// comment.
pub proof fn lemma_set_comment_then_get(es: Seq<SpecEntry>, key: Seq<char>, c: Seq<char>)
    requires
        spec_get_value(es, key) is Some,
    ensures
        spec_get_comment(spec_set_comment(es, key, c), key) == Some(c),
    decreases es.len(),
{
    if es.len() == 0 {
    } else if is_key_entry(es[0], key) {
        match es[0] {
            SpecEntry::KeyValue { key: k, value, .. } => {
                let e = SpecEntry::KeyValue { key: k, value, comment: Some(c) };
                assert((seq![e] + es.drop_first())[0] == e);
            }
            _ => {}
        }
    } else {
        lemma_set_comment_then_get(es.drop_first(), key, c);
        let tail = spec_set_comment(es.drop_first(), key, c);
        assert((seq![es[0]] + tail)[0] == es[0]);
        assert((seq![es[0]] + tail).drop_first() =~= tail);
    }
}

/// Setting a value for an absent key appends it: the key list afterwards is
/// the old list with the new key at its end.
pub proof fn lemma_new_key_appends(es: Seq<SpecEntry>, key: Seq<char>, value: Seq<char>)
    requires
        forall|j: int| 0 <= j < es.len() ==> !is_key_entry(#[trigger] es[j], key),
    ensures
        spec_list_keys(spec_set_value(es, key, value)) == spec_list_keys(es).push(key),
{
    crate::env_file::lemma_set_value_missing(es, key, value);
    crate::env_file::lemma_list_keys_push(es, SpecEntry::KeyValue { key, value, comment: None });
    assert(spec_list_keys(es) + seq![key] =~= spec_list_keys(es).push(key));
}

/// Replacing the header with non-empty text that does not end in a line
/// terminator, then reading it back, yields that text with one terminator
/// appended.
pub proof fn lemma_set_then_get_header(t: Seq<char>)
    requires
        t.len() > 0,
        t[t.len() - 1] != '\n',
    ensures
        spec_get_header(split_lines(t)) == Some(t + seq!['\n']),
{
    lemma_lines_text_split(t);
}

} // verus!
