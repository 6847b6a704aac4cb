//! Rewriting of HLS playlists so that every URI they reference points back
//! at the proxy, with the target hidden in the `u` parameter.
use vstd::prelude::*;
use vstd::utf8::{encode_utf8, is_ascii_chars, is_ascii_chars_encode_utf8};
use crate::crypto::{decrypted_url, encrypt_url, encrypted_url};
use crate::percent::{hex_digit_char, is_unreserved_byte, percent_encode, percent_encoded};
use crate::b64::is_url_safe_b64_char;
use crate::links::{lemma_hex_digit, lemma_link_query, lemma_split_append_piece, lemma_split_single, link_query};
use crate::proxy::{query_lookup, query_pairs, requested_target};
use crate::urls::{join_url, parse_url, url_joined, url_parse_outcome, ParsedUrl};
use crate::text::{
    append_range, append_str, body_lines, chars_of, contains, find_from, first_match, lacks,
    lemma_body_lines_concat, lemma_body_lines_parts, lemma_first_match, matches_at, occurs_at,
    opt_str, split_body_lines, split_on, starts_with, string_of, trim_by, trim_range,
    utf8_len_exceeds,
};

verus! {

/// How a playlist line is rewritten.
#[derive(PartialEq, Eq, Structural)]
pub enum LineShape {
    /// The empty line, which stays empty.
    Blank,
    /// A line returned unchanged.
    Keep,
    /// A line that is a URI as a whole.
    Uri,
    /// An `#EXT-X-KEY` tag whose `URI="..."` value spans `start..end`.
    KeyTag { start: usize, end: usize },
    /// An `#EXT-X-MAP:URI="..."` tag.
    MapTag,
    /// A tag with a `URI=` or `URL=` attribute; its attribute list follows
    /// the first `:`, at index `colon`.
    Attrs { colon: usize },
}

/// Length of `s` in UTF-8 bytes (`str::len`).
pub open spec fn utf8_len(s: Seq<char>) -> nat {
    encode_utf8(s).len()
}

/// Span of the quoted value after the first `URI="` in `line`.
pub open spec fn key_span(line: Seq<char>) -> Option<(int, int)> {
    match first_match(line, "URI=\""@) {
        Some(i) => match first_match(line.skip(i + 5), "\""@) {
            Some(q) => Some((i + 5, i + 5 + q)),
            None => None,
        },
        None => None,
    }
}

/// The rewrite rule that applies to `line`.
pub open spec fn line_shape(line: Seq<char>) -> LineShape {
    if line.len() == 0 {
        LineShape::Blank
    } else if line[0] != '#' {
        LineShape::Uri
    } else if utf8_len(line) > 11 && starts_with(line, "#EXT-X-KEY"@) {
        match key_span(line) {
            Some((a, b)) => LineShape::KeyTag { start: a as usize, end: b as usize },
            None => LineShape::Keep,
        }
    } else if utf8_len(line) > 16 && starts_with(line, "#EXT-X-MAP:URI=\""@) {
        LineShape::MapTag
    } else if utf8_len(line) > 20 && (contains(line, "URI="@) || contains(line, "URL="@)) {
        match first_match(line, ":"@) {
            Some(c) => LineShape::Attrs { colon: c as usize },
            None => LineShape::Keep,
        }
    } else {
        LineShape::Keep
    }
}

/// Lines on which the rewrite is defined: an `#EXT-X-MAP:URI="` line loses
/// its last byte, so that byte must end a character (an ASCII last character).
pub open spec fn line_well_formed(line: Seq<char>) -> bool {
    line_shape(line) == LineShape::MapTag ==> (line.last() as u32) < 128
}

/// Shape of a line given its characters and its UTF-8 length.
pub fn classify_line(line: &Vec<char>) -> (res: LineShape)
    ensures
        res == line_shape(line@),
{
    if line.len() == 0 {
        return LineShape::Blank;
    }
    if line[0] != '#' {
        return LineShape::Uri;
    }
    let key_tag = chars_of("#EXT-X-KEY");
    if utf8_len_exceeds(line, 11) && matches_at(line, 0, &key_tag) {
        let uri_open = chars_of("URI=\"");
        let quote = chars_of("\"");
        proof {
            reveal_strlit("URI=\"");
            reveal_strlit("\"");
        }
        match find_from(line, 0, &uri_open) {
            Some(i) => {
                assert(line@.skip(0) =~= line@);
                assert(i + 5 <= line@.len()) by {
                    lemma_first_match(line@, uri_open@, i as int);
                }
                match find_from(line, i + 5, &quote) {
                    Some(q) => {
                        assert(q + 1 <= line@.skip(i + 5).len()) by {
                            lemma_first_match(line@.skip(i + 5), quote@, q as int);
                        }
                        return LineShape::KeyTag { start: i + 5, end: i + 5 + q };
                    },
                    None => {
                        return LineShape::Keep;
                    },
                }
            },
            None => {
                assert(line@.skip(0) =~= line@);
                return LineShape::Keep;
            },
        }
    }
    let map_tag = chars_of("#EXT-X-MAP:URI=\"");
    if utf8_len_exceeds(line, 16) && matches_at(line, 0, &map_tag) {
        return LineShape::MapTag;
    }
    if utf8_len_exceeds(line, 20) {
        let uri_eq = chars_of("URI=");
        let url_eq = chars_of("URL=");
        let colon = chars_of(":");
        let has_uri = find_from(line, 0, &uri_eq).is_some();
        let has_url = find_from(line, 0, &url_eq).is_some();
        assert(line@.skip(0) =~= line@);
        proof {
            if contains(line@, uri_eq@) {
                let k = choose|k: int| occurs_at(line@, uri_eq@, k);
                lemma_first_match(line@, uri_eq@, k);
            }
            if contains(line@, url_eq@) {
                let k = choose|k: int| occurs_at(line@, url_eq@, k);
                lemma_first_match(line@, url_eq@, k);
            }
            if first_match(line@, uri_eq@) is Some {
                lemma_first_match(line@, uri_eq@, 0);
            }
            if first_match(line@, url_eq@) is Some {
                lemma_first_match(line@, url_eq@, 0);
            }
        }
        if has_uri || has_url {
            match find_from(line, 0, &colon) {
                Some(c) => {
                    return LineShape::Attrs { colon: c };
                },
                None => {
                    return LineShape::Keep;
                },
            }
        }
    }
    LineShape::Keep
}

/// State of the attribute splitter after reading `s`: the finished
/// attributes, the attribute being read, and whether a quote is open.
/// A `"` toggles the quote state; a `,` outside quotes ends an attribute.
pub open spec fn split_state(s: Seq<char>) -> (Seq<Seq<char>>, Seq<char>, bool)
    decreases s.len(),
{
    if s.len() == 0 {
        (Seq::empty(), Seq::empty(), false)
    } else {
        let (done, cur, quoted) = split_state(s.drop_last());
        let c = s.last();
        let quoted2 = if c == '"' {
            !quoted
        } else {
            quoted
        };
        if c == ',' && !quoted2 {
            (done.push(cur), Seq::empty(), quoted2)
        } else {
            (done, cur.push(c), quoted2)
        }
    }
}

/// The attributes of an attribute list: `s` cut at every comma outside quotes.
pub open spec fn split_attrs(s: Seq<char>) -> Seq<Seq<char>> {
    let (done, cur, _) = split_state(s);
    done.push(cur)
}

/// `parts` joined with `sep` between consecutive parts.
pub open spec fn join_with(parts: Seq<Seq<char>>, sep: char) -> Seq<char>
    decreases parts.len(),
{
    if parts.len() == 0 {
        Seq::empty()
    } else if parts.len() == 1 {
        parts[0]
    } else {
        join_with(parts.drop_last(), sep) + seq![sep] + parts.last()
    }
}

/// Joining one more part.
pub proof fn lemma_join_push(parts: Seq<Seq<char>>, part: Seq<char>, sep: char)
    ensures
        join_with(parts.push(part), sep) == if parts.len() == 0 {
            part
        } else {
            join_with(parts, sep) + seq![sep] + part
        },
{
    assert(parts.push(part).drop_last() =~= parts);
}

/// Parts free of `c`, joined with a separator other than `c`, are free of `c`.
pub proof fn lemma_join_lacks(parts: Seq<Seq<char>>, sep: char, c: char)
    requires
        sep != c,
        forall|i: int| 0 <= i < parts.len() ==> lacks(#[trigger] parts[i], c),
    ensures
        lacks(join_with(parts, sep), c),
    decreases parts.len(),
{
    if parts.len() > 1 {
        let front = parts.drop_last();
        assert forall|i: int| 0 <= i < front.len() implies lacks(#[trigger] front[i], c) by {
            assert(front[i] == parts[i]);
        }
        lemma_join_lacks(front, sep, c);
        let j = join_with(front, sep) + seq![sep] + parts.last();
        assert(lacks(parts[parts.len() - 1], c));
        assert forall|i: int| 0 <= i < j.len() implies j[i] != c by {
            let a = join_with(front, sep).len();
            if i < a {
            } else if i == a {
            } else {
                assert(j[i] == parts.last()[i - a - 1]);
            }
        }
    } else if parts.len() == 1 {
        assert(lacks(parts[0], c));
    }
}

/// Cutting at `sep` a join of parts free of `sep` gives the parts back.
pub proof fn lemma_split_join_parts(parts: Seq<Seq<char>>, sep: char)
    requires
        parts.len() > 0,
        forall|i: int| 0 <= i < parts.len() ==> lacks(#[trigger] parts[i], sep),
    ensures
        split_on(join_with(parts, sep), sep) == parts,
    decreases parts.len(),
{
    if parts.len() == 1 {
        assert(lacks(parts[0], sep));
        lemma_split_single(parts[0], sep);
        assert(seq![parts[0]] =~= parts);
    } else {
        let front = parts.drop_last();
        assert forall|i: int| 0 <= i < front.len() implies lacks(#[trigger] front[i], sep) by {
            assert(front[i] == parts[i]);
        }
        lemma_split_join_parts(front, sep);
        assert(lacks(parts[parts.len() - 1], sep));
        lemma_split_append_piece(join_with(front, sep), parts.last(), sep);
        assert(front.push(parts.last()) =~= parts);
    }
}

/// Joining the concatenation of two non-empty part lists is joining each
/// and putting a separator between them.
pub proof fn lemma_join_concat(x: Seq<Seq<char>>, y: Seq<Seq<char>>, sep: char)
    requires
        x.len() > 0,
        y.len() > 0,
    ensures
        join_with(x + y, sep) == join_with(x, sep) + seq![sep] + join_with(y, sep),
    decreases y.len(),
{
    if y.len() == 1 {
        assert((x + y).drop_last() =~= x);
        assert((x + y).last() == y[0]);
    } else {
        let y0 = y.drop_last();
        lemma_join_concat(x, y0, sep);
        assert((x + y).drop_last() =~= x + y0);
        assert((x + y).last() == y.last());
        assert(join_with(x, sep) + seq![sep] + join_with(y0, sep) + seq![sep] + y.last()
            =~= join_with(x, sep) + seq![sep] + (join_with(y0, sep) + seq![sep] + y.last()));
    }
}

/// For an attribute `KEY=VALUE` whose key, trimmed of whitespace, is `URI`
/// or `URL`: the trimmed key and the value trimmed of whitespace and then
/// of surrounding double quotes.
pub open spec fn uri_attr(attr: Seq<char>) -> Option<(Seq<char>, Seq<char>)> {
    match first_match(attr, "="@) {
        Some(e) => {
            let key = trim_by(attr.take(e), false);
            if key == "URI"@ || key == "URL"@ {
                Some((key, trim_by(trim_by(attr.skip(e + 1), false), true)))
            } else {
                None
            }
        },
        None => None,
    }
}

/// The URI values of the URI attributes among `parts`, in order.
pub open spec fn attr_uris(parts: Seq<Seq<char>>) -> Seq<Seq<char>>
    decreases parts.len(),
{
    if parts.len() == 0 {
        Seq::empty()
    } else {
        match uri_attr(parts.last()) {
            Some((_, value)) => attr_uris(parts.drop_last()).push(value),
            None => attr_uris(parts.drop_last()),
        }
    }
}

/// `parts` with every URI attribute replaced by `KEY="LINK"`, the links taken
/// from `links` in order.
pub open spec fn rendered_attrs(parts: Seq<Seq<char>>, links: Seq<Seq<char>>) -> Seq<Seq<char>>
    decreases parts.len(),
{
    if parts.len() == 0 {
        Seq::empty()
    } else {
        match uri_attr(parts.last()) {
            Some((key, _)) => rendered_attrs(parts.drop_last(), links.drop_last()).push(
                key + "=\""@ + links.last() + "\""@,
            ),
            None => rendered_attrs(parts.drop_last(), links).push(parts.last()),
        }
    }
}

/// The URIs that `line` references, in the order they appear.
pub open spec fn line_uris(line: Seq<char>) -> Seq<Seq<char>> {
    match line_shape(line) {
        LineShape::Uri => seq![line],
        LineShape::KeyTag { start, end } => seq![line.subrange(start as int, end as int)],
        LineShape::MapTag => seq![line.subrange(16, line.len() - 1)],
        LineShape::Attrs { colon } => attr_uris(split_attrs(line.skip(colon + 1))),
        _ => Seq::empty(),
    }
}

/// `line` with its URIs replaced, in order, by `links`.
pub open spec fn rendered_line(line: Seq<char>, links: Seq<Seq<char>>) -> Seq<char> {
    match line_shape(line) {
        LineShape::Blank => Seq::empty(),
        LineShape::Keep => line,
        LineShape::Uri => links[0],
        LineShape::KeyTag { start, end } => line.take(start as int) + links[0] + line.skip(
            end as int,
        ),
        LineShape::MapTag => "#EXT-X-MAP:URI=\""@ + links[0] + "\""@,
        LineShape::Attrs { colon } => line.take(colon + 1) + join_with(
            rendered_attrs(split_attrs(line.skip(colon + 1)), links),
            ',',
        ),
    }
}

/// The attributes of a text free of `c` are free of `c`.
proof fn lemma_split_attrs_lack(s: Seq<char>, c: char)
    requires
        lacks(s, c),
    ensures
        forall|i: int| 0 <= i < split_attrs(s).len() ==> lacks(#[trigger] split_attrs(s)[i], c),
    decreases s.len(),
{
    lemma_split_state_lack(s, c);
    let (done, cur, _) = split_state(s);
    assert forall|i: int| 0 <= i < split_attrs(s).len() implies lacks(
        #[trigger] split_attrs(s)[i],
        c,
    ) by {
        if i < done.len() {
            assert(split_attrs(s)[i] == done[i]);
        }
    }
}

proof fn lemma_split_state_lack(s: Seq<char>, c: char)
    requires
        lacks(s, c),
    ensures
        forall|i: int| 0 <= i < split_state(s).0.len() ==> lacks(#[trigger] split_state(s).0[i], c),
        lacks(split_state(s).1, c),
    decreases s.len(),
{
    if s.len() > 0 {
        let prev = s.drop_last();
        assert(lacks(prev, c)) by {
            assert forall|i: int| 0 <= i < prev.len() implies prev[i] != c by {
                assert(prev[i] == s[i]);
            }
        }
        lemma_split_state_lack(prev, c);
        let (done, cur, _) = split_state(prev);
        assert(s.last() == s[s.len() - 1]);
        assert(lacks(cur.push(s.last()), c)) by {
            assert forall|i: int| 0 <= i < cur.push(s.last()).len() implies cur.push(s.last())[i]
                != c by {
                if i < cur.len() {
                    assert(cur.push(s.last())[i] == cur[i]);
                }
            }
        }
        assert forall|i: int| 0 <= i < done.push(cur).len() implies lacks(
            #[trigger] done.push(cur)[i],
            c,
        ) by {
            if i < done.len() {
                assert(done.push(cur)[i] == done[i]);
            }
        }
        assert(lacks(Seq::<char>::empty(), c));
    }
}

/// Rendered attributes are free of a newline when the attributes and the
/// links are.
proof fn lemma_rendered_attrs_lack(parts: Seq<Seq<char>>, links: Seq<Seq<char>>)
    requires
        forall|i: int| 0 <= i < parts.len() ==> lacks(#[trigger] parts[i], '\n'),
        forall|i: int| 0 <= i < links.len() ==> lacks(#[trigger] links[i], '\n'),
        links.len() == attr_uris(parts).len(),
    ensures
        forall|i: int|
            0 <= i < rendered_attrs(parts, links).len() ==> lacks(
                #[trigger] rendered_attrs(parts, links)[i],
                '\n',
            ),
    decreases parts.len(),
{
    if parts.len() > 0 {
        let front = parts.drop_last();
        assert forall|i: int| 0 <= i < front.len() implies lacks(#[trigger] front[i], '\n') by {
            assert(front[i] == parts[i]);
        }
        assert(lacks(parts[parts.len() - 1], '\n'));
        match uri_attr(parts.last()) {
            Some((key, _)) => {
                let fewer = links.drop_last();
                assert forall|i: int| 0 <= i < fewer.len() implies lacks(#[trigger] fewer[i], '\n') by {
                    assert(fewer[i] == links[i]);
                }
                lemma_rendered_attrs_lack(front, fewer);
                reveal_strlit("URI");
                reveal_strlit("URL");
                reveal_strlit("=\"");
                reveal_strlit("\"");
                let link = links.last();
                assert(lacks(link, '\n')) by {
                    if links.len() > 0 {
                        assert(lacks(links[links.len() - 1], '\n'));
                    }
                }
                let item = key + "=\""@ + link + "\""@;
                assert(lacks(item, '\n')) by {
                    assert forall|i: int| 0 <= i < item.len() implies item[i] != '\n' by {
                        if i >= 5 && i < 5 + link.len() {
                            assert(item[i] == link[i - 5]);
                        }
                    }
                }
                let r = rendered_attrs(front, fewer).push(item);
                assert forall|i: int| 0 <= i < r.len() implies lacks(#[trigger] r[i], '\n') by {
                    if i < r.len() - 1 {
                        assert(r[i] == rendered_attrs(front, fewer)[i]);
                    }
                }
            },
            None => {
                lemma_rendered_attrs_lack(front, links);
                let r = rendered_attrs(front, links).push(parts.last());
                assert forall|i: int| 0 <= i < r.len() implies lacks(#[trigger] r[i], '\n') by {
                    if i < r.len() - 1 {
                        assert(r[i] == rendered_attrs(front, links)[i]);
                    }
                }
            },
        }
    }
}

/// A line free of newlines, rendered with links free of newlines, is free of
/// newlines.
proof fn lemma_rendered_line_lacks(line: Seq<char>, links: Seq<Seq<char>>)
    requires
        line.len() <= usize::MAX,
        lacks(line, '\n'),
        links.len() == line_uris(line).len(),
        forall|i: int| 0 <= i < links.len() ==> lacks(#[trigger] links[i], '\n'),
    ensures
        lacks(rendered_line(line, links), '\n'),
{
    lemma_shape_bounds(line);
    let out = rendered_line(line, links);
    match line_shape(line) {
        LineShape::Blank => {},
        LineShape::Keep => {},
        LineShape::Uri => {
            assert(lacks(links[0], '\n'));
        },
        LineShape::KeyTag { start, end } => {
            assert(lacks(links[0], '\n'));
            let a = line.take(start as int);
            let b = line.skip(end as int);
            assert forall|i: int| 0 <= i < out.len() implies out[i] != '\n' by {
                if i < a.len() {
                    assert(out[i] == line[i]);
                } else if i < a.len() + links[0].len() {
                    assert(out[i] == links[0][i - a.len()]);
                } else {
                    assert(out[i] == line[i - a.len() - links[0].len() + end]);
                }
            }
        },
        LineShape::MapTag => {
            reveal_strlit("#EXT-X-MAP:URI=\"");
            reveal_strlit("\"");
            assert(lacks(links[0], '\n'));
            assert forall|i: int| 0 <= i < out.len() implies out[i] != '\n' by {
                if 16 <= i < 16 + links[0].len() {
                    assert(out[i] == links[0][i - 16]);
                }
            }
        },
        LineShape::Attrs { colon } => {
            let rest = line.skip(colon + 1);
            assert(lacks(rest, '\n')) by {
                assert forall|i: int| 0 <= i < rest.len() implies rest[i] != '\n' by {
                    assert(rest[i] == line[i + colon + 1]);
                }
            }
            lemma_split_attrs_lack(rest, '\n');
            lemma_rendered_attrs_lack(split_attrs(rest), links);
            let joined = join_with(rendered_attrs(split_attrs(rest), links), ',');
            lemma_join_lacks(rendered_attrs(split_attrs(rest), links), ',', '\n');
            let a = line.take(colon + 1);
            assert forall|i: int| 0 <= i < out.len() implies out[i] != '\n' by {
                if i < a.len() {
                    assert(out[i] == line[i]);
                } else {
                    assert(out[i] == joined[i - a.len()]);
                }
            }
        },
    }
}

/// `p` read alone is one attribute: no comma outside quotes ends it.
pub open spec fn one_attr(p: Seq<char>) -> bool {
    split_state(p).0.len() == 0 && split_state(p).1 == p
}

/// `p` is one attribute and leaves no quote open.
pub open spec fn closed_attr(p: Seq<char>) -> bool {
    one_attr(p) && !split_state(p).2
}

/// Reading characters that are neither commas nor quotes extends the
/// attribute being read.
proof fn lemma_split_state_plain(x: Seq<char>, y: Seq<char>)
    requires
        lacks(y, ','),
        lacks(y, '"'),
    ensures
        split_state(x + y) == (split_state(x).0, split_state(x).1 + y, split_state(x).2),
    decreases y.len(),
{
    if y.len() == 0 {
        assert(x + y =~= x);
        assert(split_state(x).1 + y =~= split_state(x).1);
    } else {
        let y0 = y.drop_last();
        assert(lacks(y0, ',') && lacks(y0, '"')) by {
            assert forall|i: int| 0 <= i < y0.len() implies y0[i] != ',' && y0[i] != '"' by {
                assert(y0[i] == y[i]);
            }
        }
        lemma_split_state_plain(x, y0);
        assert((x + y).drop_last() =~= x + y0);
        assert((x + y).last() == y[y.len() - 1]);
        assert((split_state(x).1 + y0).push(y.last()) =~= split_state(x).1 + y);
    }
}

/// After a finished attribute (an empty one being read, no quote open),
/// reading `p` goes on as reading `p` alone, after the finished ones.
proof fn lemma_split_state_after(x: Seq<char>, p: Seq<char>)
    requires
        split_state(x).1 == Seq::<char>::empty(),
        !split_state(x).2,
    ensures
        split_state(x + p) == (split_state(x).0 + split_state(p).0, split_state(p).1, split_state(p).2),
    decreases p.len(),
{
    if p.len() == 0 {
        assert(x + p =~= x);
        assert(split_state(x).0 + Seq::<Seq<char>>::empty() =~= split_state(x).0);
    } else {
        let p0 = p.drop_last();
        lemma_split_state_after(x, p0);
        assert((x + p).drop_last() =~= x + p0);
        assert((x + p).last() == p.last());
        let (d0, c0, q0) = split_state(p0);
        let c = p.last();
        let q2 = if c == '"' { !q0 } else { q0 };
        if c == ',' && !q2 {
            assert((split_state(x).0 + d0).push(c0) =~= split_state(x).0 + d0.push(c0));
        }
    }
}

/// Attributes joined with commas split back into the same attributes, when
/// each but the last leaves no quote open.
proof fn lemma_split_attrs_join(parts: Seq<Seq<char>>)
    requires
        parts.len() > 0,
        forall|i: int| 0 <= i < parts.len() - 1 ==> closed_attr(#[trigger] parts[i]),
        one_attr(parts.last()),
    ensures
        split_attrs(join_with(parts, ',')) == parts,
        split_state(join_with(parts, ',')) == (parts.drop_last(), parts.last(), split_state(
            parts.last(),
        ).2),
    decreases parts.len(),
{
    if parts.len() == 1 {
        assert(parts.drop_last() =~= Seq::<Seq<char>>::empty());
        assert(Seq::<Seq<char>>::empty().push(parts[0]) =~= parts);
    } else {
        let front = parts.drop_last();
        assert forall|i: int| 0 <= i < front.len() - 1 implies closed_attr(#[trigger] front[i]) by {
            assert(front[i] == parts[i]);
        }
        assert(closed_attr(parts[front.len() - 1]));
        assert(front.last() == parts[front.len() - 1]);
        lemma_split_attrs_join(front);
        let jf = join_with(front, ',');
        let x = jf + seq![','];
        assert(x.drop_last() =~= jf);
        assert(x.last() == ',');
        assert(front.drop_last().push(front.last()) =~= front);
        assert(split_state(x) == (front, Seq::<char>::empty(), false));
        let p = parts.last();
        lemma_split_state_after(x, p);
        assert(front + Seq::<Seq<char>>::empty() =~= front);
        assert(join_with(parts, ',') =~= x + p);
        assert(front.push(p) =~= parts);
    }
}

/// Every attribute that splitting finishes leaves no quote open, and the
/// one being read is read as from the start.
proof fn lemma_split_state_pieces(s: Seq<char>)
    ensures
        forall|i: int| 0 <= i < split_state(s).0.len() ==> closed_attr(#[trigger] split_state(s).0[i]),
        split_state(split_state(s).1) == (Seq::<Seq<char>>::empty(), split_state(s).1, split_state(
            s,
        ).2),
    decreases s.len(),
{
    if s.len() > 0 {
        let prev = s.drop_last();
        lemma_split_state_pieces(prev);
        let (done, cur, q) = split_state(prev);
        let c = s.last();
        let q2 = if c == '"' { !q } else { q };
        if c == ',' && !q2 {
            assert forall|i: int| 0 <= i < done.push(cur).len() implies closed_attr(
                #[trigger] done.push(cur)[i],
            ) by {
                if i < done.len() {
                    assert(done.push(cur)[i] == done[i]);
                }
            }
            assert(split_state(Seq::<char>::empty()) == (
                Seq::<Seq<char>>::empty(),
                Seq::<char>::empty(),
                false,
            ));
        } else {
            assert(cur.push(c).drop_last() =~= cur);
        }
    } else {
        assert(split_state(Seq::<char>::empty()) == (
            Seq::<Seq<char>>::empty(),
            Seq::<char>::empty(),
            false,
        ));
    }
}

/// The attributes of a list: all but the last leave no quote open, and each
/// is one attribute.
proof fn lemma_split_attrs_pieces(s: Seq<char>)
    ensures
        forall|i: int| 0 <= i < split_attrs(s).len() - 1 ==> closed_attr(#[trigger] split_attrs(s)[i]),
        one_attr(split_attrs(s).last()),
{
    lemma_split_state_pieces(s);
    let (done, cur, _) = split_state(s);
    assert forall|i: int| 0 <= i < split_attrs(s).len() - 1 implies closed_attr(
        #[trigger] split_attrs(s)[i],
    ) by {
        assert(split_attrs(s)[i] == done[i]);
    }
    assert(split_attrs(s).last() == cur);
}

/// A rewritten URI attribute, `KEY="LINK"` with a link free of commas and
/// quotes, is one attribute that leaves no quote open.
proof fn lemma_uri_item_closed(key: Seq<char>, link: Seq<char>)
    requires
        key == "URI"@ || key == "URL"@,
        lacks(link, ','),
        lacks(link, '"'),
    ensures
        closed_attr(key + "=\""@ + link + "\""@),
{
    reveal_strlit("URI");
    reveal_strlit("URL");
    reveal_strlit("=\"");
    reveal_strlit("\"");
    reveal_strlit("=");
    let kq = key + "="@;
    if key == "URI"@ {
        assert(kq =~= seq!['U', 'R', 'I', '=']);
    } else {
        assert(kq =~= seq!['U', 'R', 'L', '=']);
    }
    assert(lacks(kq, ',') && lacks(kq, '"'));
    lemma_split_state_plain(Seq::empty(), kq);
    assert(Seq::<char>::empty() + kq =~= kq);
    assert(split_state(Seq::<char>::empty()) == (
        Seq::<Seq<char>>::empty(),
        Seq::<char>::empty(),
        false,
    ));
    let head = key + "=\""@;
    assert("=\""@ =~= seq!['=', '"']);
    assert(head =~= kq.push('"'));
    assert(head.drop_last() =~= kq);
    assert(head.last() == '"');
    assert(split_state(head) == (Seq::<Seq<char>>::empty(), head, true));
    lemma_split_state_plain(head, link);
    let body = head + link;
    let item = body + "\""@;
    assert(item.drop_last() =~= body);
    assert(item.last() == '"');
    assert(body.push('"') =~= item);
    assert(key + "=\""@ + link + "\""@ =~= item);
}

/// A rewritten URI attribute: `KEY="LINK"`.
pub open spec fn uri_item(key: Seq<char>, link: Seq<char>) -> Seq<char> {
    key + "=\""@ + link + "\""@
}

/// `item` is the rewritten URI attribute with key `key` for one of `links`.
pub open spec fn one_of_links(item: Seq<char>, key: Seq<char>, links: Seq<Seq<char>>) -> bool {
    exists|j: int| 0 <= j < links.len() && item == #[trigger] uri_item(key, links[j])
}

/// Rendering keeps each attribute that is not a URI attribute as it is, and
/// replaces each URI attribute by `KEY="LINK"` for one of the links.
proof fn lemma_rendered_attrs_at(parts: Seq<Seq<char>>, links: Seq<Seq<char>>)
    requires
        links.len() == attr_uris(parts).len(),
    ensures
        rendered_attrs(parts, links).len() == parts.len(),
        forall|i: int|
            0 <= i < parts.len() ==> (uri_attr(parts[i]) is None ==> #[trigger] rendered_attrs(
                parts,
                links,
            )[i] == parts[i]) && (uri_attr(parts[i]) matches Some((k, _)) ==> one_of_links(
                rendered_attrs(parts, links)[i],
                k,
                links,
            )),
    decreases parts.len(),
{
    lemma_rendered_attrs_len(parts, links);
    if parts.len() > 0 {
        let front = parts.drop_last();
        let r = rendered_attrs(parts, links);
        match uri_attr(parts.last()) {
            Some((k, _)) => {
                let fewer = links.drop_last();
                lemma_rendered_attrs_at(front, fewer);
                let rf = rendered_attrs(front, fewer);
                assert forall|i: int| 0 <= i < parts.len() implies (uri_attr(parts[i]) is None
                    ==> #[trigger] r[i] == parts[i]) && (uri_attr(parts[i]) matches Some((k2, _))
                    ==> one_of_links(r[i], k2, links)) by {
                    if i < front.len() {
                        assert(r[i] == rf[i]);
                        assert(parts[i] == front[i]);
                        if let Some((k2, _)) = uri_attr(parts[i]) {
                            let j = choose|j: int|
                                0 <= j < fewer.len() && rf[i] == #[trigger] uri_item(k2, fewer[j]);
                            assert(fewer[j] == links[j]);
                            assert(r[i] == uri_item(k2, links[j]));
                        }
                    } else {
                        let j = links.len() - 1;
                        assert(parts[i] == parts.last());
                        assert(r[i] == uri_item(k, links[j]));
                    }
                }
            },
            None => {
                lemma_rendered_attrs_at(front, links);
                let rf = rendered_attrs(front, links);
                assert forall|i: int| 0 <= i < parts.len() implies (uri_attr(parts[i]) is None
                    ==> #[trigger] r[i] == parts[i]) && (uri_attr(parts[i]) matches Some((k2, _))
                    ==> one_of_links(r[i], k2, links)) by {
                    if i < front.len() {
                        assert(r[i] == rf[i]);
                        assert(parts[i] == front[i]);
                    } else {
                        assert(parts[i] == parts.last());
                        assert(r[i] == parts[i]);
                    }
                }
            },
        }
    }
}

/// In an attribute-list tag, the rewritten line keeps everything up to the
/// first `:`, and cut at its unquoted commas after it, it has as many
/// attributes as the line: each attribute whose key is neither `URI` nor
/// `URL` exactly as it was, and each `URI`/`URL` attribute as `KEY="LINK"`
/// for one of the links (which hold no comma and no quote).
pub proof fn lemma_attribute_tag_rewrite(line: Seq<char>, links: Seq<Seq<char>>)
    requires
        line.len() <= usize::MAX,
        line_shape(line) is Attrs,
        links.len() == line_uris(line).len(),
        forall|j: int| 0 <= j < links.len() ==> lacks(#[trigger] links[j], ','),
        forall|j: int| 0 <= j < links.len() ==> lacks(#[trigger] links[j], '"'),
    ensures
        ({
            let colon = line_shape(line)->colon as int;
            let parts = split_attrs(line.skip(colon + 1));
            let out = rendered_line(line, links);
            let kept = split_attrs(out.skip(colon + 1));
            &&& out.take(colon + 1) == line.take(colon + 1)
            &&& kept.len() == parts.len()
            &&& forall|i: int|
                0 <= i < parts.len() ==> (uri_attr(parts[i]) is None ==> #[trigger] kept[i]
                    == parts[i]) && (uri_attr(parts[i]) matches Some((k, _)) ==> one_of_links(kept[i], k, links))
        }),
{
    lemma_shape_bounds(line);
    let colon = line_shape(line)->colon as int;
    let rest = line.skip(colon + 1);
    let parts = split_attrs(rest);
    lemma_split_attrs_pieces(rest);
    lemma_rendered_attrs_at(parts, links);
    let r = rendered_attrs(parts, links);
    assert forall|i: int| 0 <= i < r.len() implies #[trigger] closed_attr(r[i]) || (r[i]
        == parts[i]) by {
        if let Some((k, _)) = uri_attr(parts[i]) {
            let j = choose|j: int| 0 <= j < links.len() && r[i] == #[trigger] uri_item(k, links[j]);
            reveal_strlit("URI");
            reveal_strlit("URL");
            reveal_strlit("=");
            lemma_uri_attr_key(parts[i]);
            lemma_uri_item_closed(k, links[j]);
        }
    }
    assert forall|i: int| 0 <= i < r.len() - 1 implies #[trigger] closed_attr(r[i]) by {
        assert(closed_attr(r[i]) || r[i] == parts[i]);
    }
    assert(one_attr(r.last())) by {
        assert(closed_attr(r[r.len() - 1]) || r[r.len() - 1] == parts[parts.len() - 1]);
    }
    lemma_split_attrs_join(r);
    let out = rendered_line(line, links);
    assert(out == line.take(colon + 1) + join_with(r, ','));
    assert(out.take(colon + 1) =~= line.take(colon + 1));
    assert(out.skip(colon + 1) =~= join_with(r, ','));
}

/// The key of a URI attribute is `URI` or `URL`.
proof fn lemma_uri_attr_key(attr: Seq<char>)
    ensures
        uri_attr(attr) matches Some((k, _)) ==> (k == "URI"@ || k == "URL"@),
{
}

/// The attributes of `line[from..]`.
pub fn split_attr_list(line: &Vec<char>, from: usize) -> (res: Vec<Vec<char>>)
    requires
        from <= line@.len(),
    ensures
        res@.map_values(|p: Vec<char>| p@) == split_attrs(line@.skip(from as int)),
{
    let mut done: Vec<Vec<char>> = Vec::new();
    let mut cur: Vec<char> = Vec::new();
    let mut quoted = false;
    let mut k = from;
    while k < line.len()
        invariant
            from <= k <= line@.len(),
            (done@.map_values(|p: Vec<char>| p@), cur@, quoted) == split_state(
                line@.subrange(from as int, k as int),
            ),
        decreases line@.len() - k,
    {
        let c = line[k];
        let ghost prev = line@.subrange(from as int, k as int);
        let ghost old_done = done@.map_values(|p: Vec<char>| p@);
        assert(line@.subrange(from as int, k + 1).drop_last() =~= prev);
        if c == '"' {
            quoted = !quoted;
        }
        if c == ',' && !quoted {
            let finished = cur;
            done.push(finished);
            cur = Vec::new();
            assert(done@.map_values(|p: Vec<char>| p@) =~= old_done.push(finished@));
        } else {
            cur.push(c);
        }
        k = k + 1;
    }
    assert(line@.subrange(from as int, line@.len() as int) =~= line@.skip(from as int));
    let ghost old_done = done@.map_values(|p: Vec<char>| p@);
    let last = cur;
    done.push(last);
    assert(done@.map_values(|p: Vec<char>| p@) =~= old_done.push(last@));
    done
}

/// Whether `v[a..b]` is exactly `pat`.
fn range_is(v: &Vec<char>, a: usize, b: usize, pat: &Vec<char>) -> (res: bool)
    requires
        a <= b <= v@.len(),
    ensures
        res == (v@.subrange(a as int, b as int) == pat@),
{
    if b - a != pat.len() {
        return false;
    }
    matches_at(v, a, pat)
}

/// For a URI attribute, the bounds of its trimmed key and of its value.
pub fn uri_attr_bounds(attr: &Vec<char>) -> (res: Option<((usize, usize), (usize, usize))>)
    ensures
        match res {
            Some(((ka, kb), (va, vb))) => {
                &&& ka <= kb <= attr@.len()
                &&& va <= vb <= attr@.len()
                &&& uri_attr(attr@) == Some(
                    (attr@.subrange(ka as int, kb as int), attr@.subrange(va as int, vb as int)),
                )
            },
            None => uri_attr(attr@) is None,
        },
{
    let eq = chars_of("=");
    let e = match find_from(attr, 0, &eq) {
        Some(e) => e,
        None => {
            assert(attr@.skip(0) =~= attr@);
            return None;
        },
    };
    proof {
        reveal_strlit("=");
        assert(attr@.skip(0) =~= attr@);
        lemma_first_match(attr@, eq@, e as int);
        assert(occurs_at(attr@, eq@, e as int));
    }
    assert(e + 1 <= attr@.len());
    let n = attr.len();
    let (ka, kb) = trim_range(attr, 0, e, false);
    assert(attr@.subrange(0, e as int) =~= attr@.take(e as int));
    let uri = chars_of("URI");
    let url = chars_of("URL");
    if range_is(attr, ka, kb, &uri) || range_is(attr, ka, kb, &url) {
        let (va, vb) = trim_range(attr, e + 1, n, false);
        let (qa, qb) = trim_range(attr, va, vb, true);
        assert(attr@.subrange(e + 1, attr@.len() as int) =~= attr@.skip(e + 1));
        Some(((ka, kb), (qa, qb)))
    } else {
        None
    }
}

/// Where the spans of a line shape lie.
pub proof fn lemma_shape_bounds(line: Seq<char>)
    requires
        line.len() <= usize::MAX,
    ensures
        match line_shape(line) {
            LineShape::KeyTag { start, end } => 5 <= start <= end < line.len(),
            LineShape::MapTag => 17 <= line.len(),
            LineShape::Attrs { colon } => colon < line.len(),
            _ => true,
        },
{
    reveal_strlit("URI=\"");
    reveal_strlit("\"");
    reveal_strlit(":");
    reveal_strlit("#EXT-X-MAP:URI=\"");
    match first_match(line, "URI=\""@) {
        Some(i) => {
            lemma_first_match(line, "URI=\""@, i);
            match first_match(line.skip(i + 5), "\""@) {
                Some(q) => {
                    lemma_first_match(line.skip(i + 5), "\""@, q);
                },
                None => {},
            }
        },
        None => {},
    }
    match first_match(line, ":"@) {
        Some(c) => {
            lemma_first_match(line, ":"@, c);
        },
        None => {},
    }
    if line.len() == 16 && starts_with(line, "#EXT-X-MAP:URI=\""@) {
        assert(line =~= "#EXT-X-MAP:URI=\""@);
        assert(is_ascii_chars(line));
        is_ascii_chars_encode_utf8(line);
    }
}

/// Only a prefix of the attributes holds at most all URI attributes.
pub proof fn lemma_attr_uris_prefix(parts: Seq<Seq<char>>, i: int)
    requires
        0 <= i <= parts.len(),
    ensures
        attr_uris(parts.take(i)).len() <= attr_uris(parts).len(),
    decreases parts.len(),
{
    if i == parts.len() {
        assert(parts.take(i) =~= parts);
    } else {
        assert(parts.drop_last().take(i) =~= parts.take(i));
        lemma_attr_uris_prefix(parts.drop_last(), i);
    }
}

/// Rendering keeps the number of attributes.
pub proof fn lemma_rendered_attrs_len(parts: Seq<Seq<char>>, links: Seq<Seq<char>>)
    ensures
        rendered_attrs(parts, links).len() == parts.len(),
    decreases parts.len(),
{
    if parts.len() > 0 {
        lemma_rendered_attrs_len(parts.drop_last(), links);
        lemma_rendered_attrs_len(parts.drop_last(), links.drop_last());
    }
}

/// The URIs referenced by `line`, in order.
pub fn uris_of_line(line: &str) -> (res: Vec<String>)
    requires
        line_well_formed(line@),
    ensures
        res@.map_values(|s: String| s@) == line_uris(line@),
        line@.len() <= usize::MAX,
{
    let v = chars_of(line);
    let shape = classify_line(&v);
    let n = v.len();
    proof {
        lemma_shape_bounds(v@);
    }
    let mut res: Vec<String> = Vec::new();
    match shape {
        LineShape::Uri => {
            res.push(string_of(&v, 0, v.len()));
            assert(v@.subrange(0, v@.len() as int) =~= v@);
        },
        LineShape::KeyTag { start, end } => {
            res.push(string_of(&v, start, end));
        },
        LineShape::MapTag => {
            res.push(string_of(&v, 16, v.len() - 1));
        },
        LineShape::Attrs { colon } => {
            let parts = split_attr_list(&v, colon + 1);
            let ghost pv = parts@.map_values(|p: Vec<char>| p@);
            let mut i: usize = 0;
            while i < parts.len()
                invariant
                    i <= parts@.len(),
                    pv == parts@.map_values(|p: Vec<char>| p@),
                    res@.map_values(|s: String| s@) == attr_uris(pv.take(i as int)),
                decreases parts@.len() - i,
            {
                let ghost before = res@.map_values(|s: String| s@);
                assert(pv.take(i + 1).drop_last() =~= pv.take(i as int));
                assert(pv[i as int] == parts@[i as int]@);
                match uri_attr_bounds(&parts[i]) {
                    Some((_, (va, vb))) => {
                        let u = string_of(&parts[i], va, vb);
                        res.push(u);
                        assert(res@.map_values(|s: String| s@) =~= before.push(u@));
                    },
                    None => {},
                }
                i = i + 1;
            }
            assert(pv.take(parts@.len() as int) =~= pv);
        },
        _ => {},
    }
    assert(res@.map_values(|s: String| s@) =~= line_uris(line@));
    res
}

/// `line` with its URIs replaced, in order, by `links`.
pub fn render_line(line: &str, links: &Vec<String>) -> (res: String)
    requires
        line_well_formed(line@),
        links@.len() == line_uris(line@).len(),
    ensures
        res@ == rendered_line(line@, links@.map_values(|s: String| s@)),
{
    let ghost lv = links@.map_values(|s: String| s@);
    let v = chars_of(line);
    let shape = classify_line(&v);
    let n = v.len();
    proof {
        lemma_shape_bounds(v@);
    }
    let mut out: Vec<char> = Vec::new();
    match shape {
        LineShape::Blank => {},
        LineShape::Keep => {
            append_range(&mut out, &v, 0, n);
            assert(v@.subrange(0, n as int) =~= v@);
        },
        LineShape::Uri => {
            append_str(&mut out, links[0].as_str());
        },
        LineShape::KeyTag { start, end } => {
            append_range(&mut out, &v, 0, start);
            append_str(&mut out, links[0].as_str());
            append_range(&mut out, &v, end, n);
            assert(v@.subrange(0, start as int) =~= v@.take(start as int));
            assert(v@.subrange(end as int, n as int) =~= v@.skip(end as int));
        },
        LineShape::MapTag => {
            append_str(&mut out, "#EXT-X-MAP:URI=\"");
            append_str(&mut out, links[0].as_str());
            append_str(&mut out, "\"");
        },
        LineShape::Attrs { colon } => {
            append_range(&mut out, &v, 0, colon + 1);
            assert(v@.subrange(0, colon + 1) =~= v@.take(colon + 1));
            let parts = split_attr_list(&v, colon + 1);
            let ghost pv = parts@.map_values(|p: Vec<char>| p@);
            let ghost prefix = v@.take(colon + 1);
            proof {
                lemma_attr_uris_prefix(pv, pv.len() as int);
                assert(pv.take(pv.len() as int) =~= pv);
            }
            let mut i: usize = 0;
            let mut j: usize = 0;
            while i < parts.len()
                invariant
                    i <= parts@.len(),
                    pv == parts@.map_values(|p: Vec<char>| p@),
                    pv == split_attrs(v@.skip(colon + 1)),
                    lv == links@.map_values(|s: String| s@),
                    lv.len() == attr_uris(pv).len(),
                    j == attr_uris(pv.take(i as int)).len(),
                    out@ == prefix + join_with(
                        rendered_attrs(pv.take(i as int), lv.take(j as int)),
                        ',',
                    ),
                decreases parts@.len() - i,
            {
                let ghost before = rendered_attrs(pv.take(i as int), lv.take(j as int));
                proof {
                    assert(pv.take(i + 1).drop_last() =~= pv.take(i as int));
                    assert(pv[i as int] == parts@[i as int]@);
                    lemma_rendered_attrs_len(pv.take(i as int), lv.take(j as int));
                    lemma_attr_uris_prefix(pv, i + 1);
                }
                if i > 0 {
                    out.push(',');
                }
                match uri_attr_bounds(&parts[i]) {
                    Some(((ka, kb), _)) => {
                        let ghost piece = parts@[i as int]@.subrange(ka as int, kb as int) + "=\""@
                            + lv[j as int] + "\""@;
                        append_range(&mut out, &parts[i], ka, kb);
                        append_str(&mut out, "=\"");
                        append_str(&mut out, links[j].as_str());
                        append_str(&mut out, "\"");
                        proof {
                            assert(lv.take(j + 1).drop_last() =~= lv.take(j as int));
                            assert(rendered_attrs(pv.take(i + 1), lv.take(j + 1)) == before.push(
                                piece,
                            ));
                            lemma_join_push(before, piece, ',');
                        }
                        assert(j < links.len());
                        j = j + 1;
                    },
                    None => {
                        let ghost piece = parts@[i as int]@;
                        let m = parts[i].len();
                        append_range(&mut out, &parts[i], 0, m);
                        proof {
                            assert(parts@[i as int]@.subrange(0, m as int) =~= piece);
                            assert(rendered_attrs(pv.take(i + 1), lv.take(j as int))
                                == before.push(piece));
                            lemma_join_push(before, piece, ',');
                        }
                    },
                }
                i = i + 1;
            }
            proof {
                assert(pv.take(parts@.len() as int) =~= pv);
                assert(lv.take(j as int) =~= lv);
            }
        },
    }
    string_of(&out, 0, out.len())
}

/// Where a playlist URI leads: the URI itself when it is absolute, else the
/// URI resolved against `base`, else `base` (when even that fails).
pub open spec fn resolved_url(uri: Seq<char>, base: Seq<char>) -> Seq<char> {
    match url_parse_outcome(uri) {
        Ok(absolute) => absolute,
        Err(_) => match url_joined(base, uri) {
            Some(joined) => joined,
            None => base,
        },
    }
}

/// The proxy link for `target`: `/?u=` and the obfuscated target, then,
/// when an origin is given, `&origin=` and the percent-encoded origin.
pub open spec fn proxy_link(target: Seq<char>, origin: Option<Seq<char>>, key: Seq<u8>) -> Seq<
    char,
> {
    "/?u="@ + encrypted_url(target, key) + match origin {
        Some(o) => "&origin="@ + percent_encoded(encode_utf8(o)),
        None => Seq::empty(),
    }
}

/// What the rewriter makes of one playlist line.
pub open spec fn processed_line(
    line: Seq<char>,
    base: Seq<char>,
    origin: Option<Seq<char>>,
    key: Seq<u8>,
) -> Seq<char> {
    rendered_line(
        line,
        line_uris(line).map_values(|u: Seq<char>| proxy_link(resolved_url(u, base), origin, key)),
    )
}

/// What the rewriter makes of a whole playlist.
pub open spec fn processed_body(
    body: Seq<char>,
    base: Seq<char>,
    origin: Option<Seq<char>>,
    key: Seq<u8>,
) -> Seq<char> {
    join_with(
        body_lines(body).map_values(|l: Seq<char>| processed_line(l, base, origin, key)),
        '\n',
    )
}

/// The lines of a playlist that the rewriter accepts with this key: each
/// line is well formed, and without a key no line may need a link.
pub open spec fn body_accepted(body: Seq<char>, key: Seq<u8>) -> bool {
    forall|i: int|
        0 <= i < body_lines(body).len() ==> line_well_formed(#[trigger] body_lines(body)[i]) && (
        key.len() > 0 || line_uris(body_lines(body)[i]).len() == 0)
}

/// Resolves a playlist URI against the playlist's own URL.
pub fn get_url(line: &str, base: &ParsedUrl) -> (res: String)
    ensures
        res@ == resolved_url(line@, base@),
{
    match parse_url(line) {
        Ok(absolute) => absolute.as_str().to_string(),
        Err(_) => match join_url(base, line) {
            Some(joined) => joined,
            None => base.as_str().to_string(),
        },
    }
}

/// The proxy link for an already resolved URL. Its `u` parameter decrypts
/// back to `resolved`.
pub fn build_proxy_url(resolved: &str, origin_param: Option<&str>, key: &[u8]) -> (res: String)
    requires
        key@.len() > 0 || resolved@.len() == 0,
    ensures
        res@ == proxy_link(resolved@, opt_str(origin_param), key@),
        decrypted_url(encrypted_url(resolved@, key@), key@) == Some(resolved@),
        res@.take(2) == "/?"@,
        lacks(res@, '\n'),
        lacks(res@, ','),
        lacks(res@, '"'),
        query_lookup(query_pairs(res@.skip(2)), "origin"@) == opt_str(origin_param),
        forall|enable_cors: bool|
            requested_target(query_pairs(res@.skip(2)), true, enable_cors, key@) == Ok::<
                Seq<char>,
                Option<Seq<char>>,
            >(resolved@),
{
    let encrypted = encrypt_url(resolved, key);
    let mut result = String::new();
    result.append("/?u=");
    result.append(encrypted.as_str());
    match origin_param {
        Some(o) => {
            result.append("&origin=");
            let encoded = percent_encode(o);
            result.append(encoded.as_str());
            assert(result@ =~= proxy_link(resolved@, opt_str(origin_param), key@));
        },
        None => {
            assert(result@ =~= proxy_link(resolved@, opt_str(origin_param), key@));
        },
    }
    proof {
        reveal_strlit("/?u=");
        reveal_strlit("/?");
        reveal_strlit("u=");
        let e = encrypted_url(resolved@, key@);
        assert(result@ =~= "/?"@ + link_query(e, opt_str(origin_param)));
        assert(result@.take(2) =~= "/?"@);
        assert(result@.skip(2) =~= link_query(e, opt_str(origin_param)));
        lemma_link_query(e, opt_str(origin_param));
        reveal_strlit("&origin=");
        let tail = match opt_str(origin_param) {
            Some(o) => "&origin="@ + percent_encoded(encode_utf8(o)),
            None => Seq::empty(),
        };
        assert(result@ =~= "/?u="@ + e + tail);
        assert forall|c: char| c == '\n' || c == ',' || c == '"' implies #[trigger] lacks(result@, c) by {
            match opt_str(origin_param) {
                Some(o) => {
                    lemma_percent_encoded_lacks(encode_utf8(o), c);
                    assert forall|i: int| 0 <= i < tail.len() implies tail[i] != c by {
                        if i >= 8 {
                            assert(tail[i] == percent_encoded(encode_utf8(o))[i - 8]);
                        }
                    }
                },
                None => {},
            }
            assert forall|i: int| 0 <= i < result@.len() implies result@[i] != c by {
                if 4 <= i < 4 + e.len() {
                    assert(result@[i] == e[i - 4]);
                    assert(is_url_safe_b64_char(e[i - 4]));
                } else if i >= 4 + e.len() {
                    assert(result@[i] == tail[i - 4 - e.len()]);
                }
            }
        }
        assert(lacks(result@, '\n'));
        assert(lacks(result@, ','));
        assert(lacks(result@, '"'));
    }
    result
}

/// Percent-encoded text has no newline, comma or double quote.
proof fn lemma_percent_encoded_lacks(bytes: Seq<u8>, c: char)
    requires
        c == '\n' || c == ',' || c == '"',
    ensures
        lacks(percent_encoded(bytes), c),
    decreases bytes.len(),
{
    if bytes.len() > 0 {
        let b = bytes[0];
        lemma_percent_encoded_lacks(bytes.drop_first(), c);
        let tail = percent_encoded(bytes.drop_first());
        let head = if is_unreserved_byte(b) {
            seq![b as char]
        } else {
            seq!['%', hex_digit_char(b >> 4), hex_digit_char(b & 15)]
        };
        let hi = b >> 4;
        let lo = b & 15;
        assert(hi < 16 && lo < 16) by (bit_vector)
            requires
                hi == b >> 4,
                lo == b & 15,
        ;
        assert(lacks(head, c)) by {
            if is_unreserved_byte(b) {
                assert((b as char) as u32 == b as u32);
            } else {
                lemma_hex_digit(hi);
                lemma_hex_digit(lo);
                assert(hex_digit_char(hi) != c) by {
                    if hi < 10 {
                        assert(((48 + hi) as u8) as char as u8 == (48 + hi) as u8);
                    } else {
                        assert(((55 + hi) as u8) as char as u8 == (55 + hi) as u8);
                    }
                }
                assert(hex_digit_char(lo) != c) by {
                    if lo < 10 {
                        assert(((48 + lo) as u8) as char as u8 == (48 + lo) as u8);
                    } else {
                        assert(((55 + lo) as u8) as char as u8 == (55 + lo) as u8);
                    }
                }
            }
        }
        assert(percent_encoded(bytes) == head + tail);
        assert forall|i: int| 0 <= i < (head + tail).len() implies (head + tail)[i] != c by {
            if i >= head.len() {
                assert((head + tail)[i] == tail[i - head.len()]);
            }
        }
    }
}

/// Rewrites one playlist line: every URI it references becomes a proxy link
/// to that URI resolved against `base_url`.
pub fn process_pipe_line(line: &str, base_url: &ParsedUrl, origin_param: Option<&str>, key: &[u8]) -> (res: String)
    requires
        line_well_formed(line@),
        key@.len() > 0 || line_uris(line@).len() == 0,
    ensures
        res@ == processed_line(line@, base_url@, opt_str(origin_param), key@),
        lacks(line@, '\n') ==> lacks(res@, '\n'),
        line_shape(line@) is Attrs ==> ({
            let colon = line_shape(line@)->colon as int;
            let parts = split_attrs(line@.skip(colon + 1));
            let kept = split_attrs(res@.skip(colon + 1));
            &&& res@.take(colon + 1) == line@.take(colon + 1)
            &&& kept.len() == parts.len()
            &&& forall|i: int|
                0 <= i < parts.len() ==> (uri_attr(parts[i]) is None ==> #[trigger] kept[i]
                    == parts[i]) && (uri_attr(parts[i]) matches Some((k, _)) ==> one_of_links(
                    kept[i],
                    k,
                    line_uris(line@).map_values(
                        |u: Seq<char>| proxy_link(resolved_url(u, base_url@), opt_str(origin_param), key@),
                    ),
                ))
        }),
{
    let uris = uris_of_line(line);
    let ghost uv = uris@.map_values(|s: String| s@);
    let mut links: Vec<String> = Vec::new();
    let mut i: usize = 0;
    while i < uris.len()
        invariant
            i <= uris@.len(),
            uv == uris@.map_values(|s: String| s@),
            uv == line_uris(line@),
            key@.len() > 0 || uv.len() == 0,
            links@.map_values(|s: String| s@) == uv.take(i as int).map_values(|u: Seq<char>| proxy_link(resolved_url(u, base_url@), opt_str(origin_param), key@)),
            forall|j: int| 0 <= j < links@.len() ==> lacks(#[trigger] links@[j]@, '\n'),
            forall|j: int| 0 <= j < links@.len() ==> lacks(#[trigger] links@[j]@, ','),
            forall|j: int| 0 <= j < links@.len() ==> lacks(#[trigger] links@[j]@, '"'),
        decreases uris@.len() - i,
    {
        let ghost before = links@.map_values(|s: String| s@);
        let resolved = get_url(uris[i].as_str(), base_url);
        let link = build_proxy_url(resolved.as_str(), origin_param, key);
        let ghost link_text = link@;
        links.push(link);
        proof {
            assert(uv[i as int] == uris@[i as int]@);
            assert(links@.map_values(|s: String| s@) =~= before.push(link_text));
            assert(uv.take(i + 1) =~= uv.take(i as int).push(uv[i as int]));
            assert(links@.map_values(|s: String| s@) =~= uv.take(i + 1).map_values(|u: Seq<char>| proxy_link(resolved_url(u, base_url@), opt_str(origin_param), key@)));
        }
        i = i + 1;
    }
    assert(uv.take(uris@.len() as int) =~= uv);
    assert(links@.map_values(|s: String| s@) =~= line_uris(line@).map_values(|u: Seq<char>| proxy_link(resolved_url(u, base_url@), opt_str(origin_param), key@)));
    proof {
        let lv = links@.map_values(|s: String| s@);
        assert forall|j: int| 0 <= j < lv.len() implies lacks(#[trigger] lv[j], '\n') by {
            assert(lv[j] == links@[j]@);
        }
        if lacks(line@, '\n') {
            lemma_rendered_line_lacks(line@, lv);
        }
        assert forall|j: int| 0 <= j < lv.len() implies lacks(#[trigger] lv[j], ',') && lacks(lv[j], '"') by {
            assert(lv[j] == links@[j]@);
        }
        if line_shape(line@) is Attrs {
            lemma_attribute_tag_rewrite(line@, lv);
        }
    }
    render_line(line, &links)
}

/// Rewrites a whole playlist line by line; the result has one line per line
/// of `body`, joined with `\n`: cut at its newlines, it gives back the
/// rewritten lines.
pub fn process_pipe_body(body: &str, base_url: &ParsedUrl, origin_param: Option<&str>, key: &[u8]) -> (res: String)
    requires
        body_accepted(body@, key@),
    ensures
        res@ == processed_body(body@, base_url@, opt_str(origin_param), key@),
        body@.len() > 0 ==> split_on(res@, '\n') == body_lines(body@).map_values(
            |l: Seq<char>| processed_line(l, base_url@, opt_str(origin_param), key@),
        ),
{
    let lines = split_body_lines(body);
    let ghost lv = lines@.map_values(|s: String| s@);
    proof {
        lemma_body_lines_parts(body@);
    }
    let mut out: Vec<char> = Vec::new();
    let mut i: usize = 0;
    assert(lv.take(0).map_values(|l: Seq<char>| processed_line(l, base_url@, opt_str(origin_param), key@)) =~= Seq::empty());
    while i < lines.len()
        invariant
            i <= lines@.len(),
            lv == lines@.map_values(|s: String| s@),
            lv == body_lines(body@),
            body@.len() <= usize::MAX,
            body_accepted(body@, key@),
            forall|k: int| 0 <= k < lv.len() ==> lacks(#[trigger] lv[k], '\n') && lv[k].len() <= body@.len(),
            out@ == join_with(lv.take(i as int).map_values(|l: Seq<char>| processed_line(l, base_url@, opt_str(origin_param), key@)), '\n'),
            forall|k: int| 0 <= k < i ==> lacks(#[trigger] processed_line(lv[k], base_url@, opt_str(origin_param), key@), '\n'),
        decreases lines@.len() - i,
    {
        assert(lv[i as int] == lines@[i as int]@);
        assert(lv[i as int] == body_lines(body@)[i as int]);
        let processed = process_pipe_line(lines[i].as_str(), base_url, origin_param, key);
        let ghost before = lv.take(i as int).map_values(|l: Seq<char>| processed_line(l, base_url@, opt_str(origin_param), key@));
        proof {
            lemma_join_push(before, processed@, '\n');
            assert(lv.take(i + 1).map_values(|l: Seq<char>| processed_line(l, base_url@, opt_str(origin_param), key@)) =~= before.push(processed@));
        }
        if i > 0 {
            out.push('\n');
        }
        append_str(&mut out, processed.as_str());
        i = i + 1;
    }
    let res = string_of(&out, 0, out.len());
    proof {
        let all = lv.map_values(|l: Seq<char>| processed_line(l, base_url@, opt_str(origin_param), key@));
        assert(lv.take(lv.len() as int) =~= lv);
        assert(out@ == join_with(all, '\n'));
        assert(out@.subrange(0, out@.len() as int) =~= out@);
        assert(res@ == join_with(all, '\n'));
        lemma_body_lines_parts(body@);
        if body@.len() > 0 {
            assert(all.len() > 0);
            assert forall|k: int| 0 <= k < all.len() implies lacks(#[trigger] all[k], '\n') by {
                assert(all[k] == processed_line(lv[k], base_url@, opt_str(origin_param), key@));
            }
            lemma_split_join_parts(all, '\n');
        }
    }
    res
}

/// Cutting an attribute list at its unquoted commas and joining the pieces
/// with commas again gives the list back.
pub proof fn lemma_split_join(s: Seq<char>)
    ensures
        join_with(split_attrs(s), ',') == s,
    decreases s.len(),
{
    if s.len() == 0 {
        assert(split_attrs(s) =~= seq![Seq::<char>::empty()]);
    } else {
        let prev = s.drop_last();
        lemma_split_join(prev);
        let (done, cur, quoted) = split_state(prev);
        let c = s.last();
        let quoted2 = if c == '"' {
            !quoted
        } else {
            quoted
        };
        lemma_join_push(done, cur, ',');
        if c == ',' && !quoted2 {
            lemma_join_push(done.push(cur), Seq::empty(), ',');
        } else {
            lemma_join_push(done, cur.push(c), ',');
        }
        assert(prev.push(c) =~= s);
    }
}

/// Rendering attributes that hold no URI leaves them as they are.
pub proof fn lemma_render_without_uris(parts: Seq<Seq<char>>)
    requires
        attr_uris(parts).len() == 0,
    ensures
        rendered_attrs(parts, Seq::empty()) == parts,
    decreases parts.len(),
{
    if parts.len() > 0 {
        let prefix = parts.drop_last();
        if uri_attr(parts.last()) is None {
            lemma_render_without_uris(prefix);
            assert(prefix.push(parts.last()) =~= parts);
        }
    }
}

/// A line that references no URI comes out of the rewriter unchanged (a
/// playlist tag without a `URI=`/`URL=` attribute, a comment, a blank line).
pub proof fn lemma_line_without_uris_unchanged(
    line: Seq<char>,
    base: Seq<char>,
    origin: Option<Seq<char>>,
    key: Seq<u8>,
)
    requires
        line.len() <= usize::MAX,
        line_uris(line).len() == 0,
    ensures
        processed_line(line, base, origin, key) == line,
{
    lemma_shape_bounds(line);
    let links = line_uris(line).map_values(
        |u: Seq<char>| proxy_link(resolved_url(u, base), origin, key),
    );
    assert(links =~= Seq::<Seq<char>>::empty());
    match line_shape(line) {
        LineShape::Attrs { colon } => {
            let rest = line.skip(colon + 1);
            lemma_render_without_uris(split_attrs(rest));
            lemma_split_join(rest);
            assert(line.take(colon + 1) + rest =~= line);
        },
        LineShape::Blank => {
            assert(line =~= Seq::<char>::empty());
        },
        _ => {},
    }
}

/// A tag line in which neither `URI=` nor `URL=` occurs references no URI.
pub proof fn lemma_tag_without_uri_attribute(line: Seq<char>)
    requires
        line.len() > 0,
        line[0] == '#',
        !contains(line, "URI="@),
        !contains(line, "URL="@),
    ensures
        line_uris(line).len() == 0,
{
    reveal_strlit("URI=\"");
    reveal_strlit("URI=");
    reveal_strlit("#EXT-X-MAP:URI=\"");
    match first_match(line, "URI=\""@) {
        Some(i) => {
            lemma_first_match(line, "URI=\""@, i);
            assert(line.subrange(i, i + 4) =~= "URI="@);
            assert(occurs_at(line, "URI="@, i));
        },
        None => {},
    }
    if starts_with(line, "#EXT-X-MAP:URI=\""@) {
        let p = "#EXT-X-MAP:URI=\""@;
        assert(line.subrange(0, 16) == p);
        assert(line.subrange(11, 15) =~= line.subrange(0, 16).subrange(11, 15));
        assert(p.subrange(11, 15) =~= "URI="@);
        assert(occurs_at(line, "URI="@, 11));
    }
}

/// A line that is not a tag is replaced by the proxy link of the URL it
/// names, resolved against the playlist URL.
pub proof fn lemma_uri_line(
    line: Seq<char>,
    base: Seq<char>,
    origin: Option<Seq<char>>,
    key: Seq<u8>,
)
    requires
        line.len() > 0,
        line[0] != '#',
    ensures
        line_uris(line) == seq![line],
        processed_line(line, base, origin, key) == proxy_link(resolved_url(line, base), origin, key),
{
}

/// Whether the rewriter accepts `line` with this key.
pub fn line_accepted(line: &str, key: &[u8]) -> (res: bool)
    ensures
        res == (line_well_formed(line@) && (key@.len() > 0 || line_uris(line@).len() == 0)),
{
    let v = chars_of(line);
    let shape = classify_line(&v);
    let n = v.len();
    proof {
        lemma_shape_bounds(v@);
    }
    match shape {
        LineShape::MapTag => (v[n - 1] as u32) < 128 && key.len() > 0,
        LineShape::Blank | LineShape::Keep => true,
        LineShape::Uri | LineShape::KeyTag { .. } => key.len() > 0,
        LineShape::Attrs { .. } => key.len() > 0 || uris_of_line(line).len() == 0,
    }
}

/// Whether the rewriter accepts the whole playlist `body` with this key: no
/// `#EXT-X-MAP:URI="` line may end in a non-ASCII character, and without a
/// key no line may reference a URI.
pub fn body_is_accepted(body: &str, key: &[u8]) -> (res: bool)
    ensures
        res == body_accepted(body@, key@),
{
    let lines = split_body_lines(body);
    let ghost lv = lines@.map_values(|s: String| s@);
    let mut i: usize = 0;
    while i < lines.len()
        invariant
            i <= lines@.len(),
            lv == lines@.map_values(|s: String| s@),
            lv == body_lines(body@),
            forall|k: int|
                0 <= k < i ==> line_well_formed(#[trigger] lv[k]) && (key@.len() > 0
                    || line_uris(lv[k]).len() == 0),
        decreases lines@.len() - i,
    {
        assert(lv[i as int] == lines@[i as int]@);
        if !line_accepted(lines[i].as_str(), key) {
            assert(!(line_well_formed(body_lines(body@)[i as int]) && (key@.len() > 0 || line_uris(body_lines(body@)[i as int]).len() == 0)));
            return false;
        }
        i = i + 1;
    }
    true
}

/// Two texts joined with a newline are rewritten as each of them, joined
/// with a newline, when the first is not empty and does not end a line
/// itself (ends in neither `\n` nor `\r`) and the second is not empty.
pub proof fn lemma_processed_body_concat(
    a: Seq<char>,
    b: Seq<char>,
    base: Seq<char>,
    origin: Option<Seq<char>>,
    key: Seq<u8>,
)
    requires
        a.len() > 0,
        b.len() > 0,
        a.last() != '\n',
        a.last() != '\r',
    ensures
        processed_body(a + seq!['\n'] + b, base, origin, key) == processed_body(a, base, origin, key)
            + seq!['\n'] + processed_body(b, base, origin, key),
{
    lemma_body_lines_concat(a, b);
    lemma_body_lines_parts(a);
    lemma_body_lines_parts(b);
    let f = |l: Seq<char>| processed_line(l, base, origin, key);
    let la = body_lines(a);
    let lb = body_lines(b);
    assert((la + lb).map_values(f) =~= la.map_values(f) + lb.map_values(f));
    lemma_join_concat(la.map_values(f), lb.map_values(f), '\n');
}

/// A URI line that is an absolute URL is rewritten the same whatever the
/// playlist's own URL is.
pub proof fn lemma_absolute_uri_ignores_base(
    line: Seq<char>,
    base1: Seq<char>,
    base2: Seq<char>,
    origin: Option<Seq<char>>,
    key: Seq<u8>,
)
    requires
        line.len() > 0,
        line[0] != '#',
        url_parse_outcome(line) is Ok,
    ensures
        processed_line(line, base1, origin, key) == processed_line(line, base2, origin, key),
{
    lemma_uri_line(line, base1, origin, key);
    lemma_uri_line(line, base2, origin, key);
}

} // verus!
