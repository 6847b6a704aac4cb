//! Character-level helpers shared by the parsers, and the two std string
//! operations that vstd leaves unspecified.
use vstd::prelude::*;
use vstd::utf8::*;

verus! {

broadcast use vstd::string::group_string_axioms;

/// Calls `String::from_utf8`. As std documents it, the conversion succeeds
/// exactly on valid UTF-8 and then holds the decoded characters.
#[verifier::external_body]
pub fn utf8_to_string(bytes: Vec<u8>) -> (res: Option<String>)
    ensures
        res is Some <==> valid_utf8(bytes@),
        res matches Some(s) ==> s@ == decode_utf8(bytes@),
{
    match String::from_utf8(bytes) {
        Ok(s) => Some(s),
        Err(_) => None,
    }
}

/// Calls `String::push`, which std documents as appending one character.
#[verifier::external_body]
pub fn push_char(s: &mut String, c: char)
    ensures
        final(s)@ == old(s)@.push(c),
{
    s.push(c);
}

/// The characters of `s`, in order.
pub fn chars_of(s: &str) -> (res: Vec<char>)
    ensures
        res@ == s@,
{
    let mut res: Vec<char> = Vec::new();
    for c in it: s.chars()
        invariant
            it.seq() == s@,
            res@ == s@.take(it.index()),
    {
        res.push(c);
    }
    assert(res@ =~= s@);
    res
}

/// `pat` occurs in `s` starting at index `i`.
pub open spec fn occurs_at(s: Seq<char>, pat: Seq<char>, i: int) -> bool {
    0 <= i && i + pat.len() <= s.len() && s.subrange(i, i + pat.len()) == pat
}

/// `i` is the index of the first occurrence of `pat` in `s`.
pub open spec fn is_first_match(s: Seq<char>, pat: Seq<char>, i: int) -> bool {
    occurs_at(s, pat, i) && forall|j: int| 0 <= j < i ==> !occurs_at(s, pat, j)
}

/// Index of the first occurrence of `pat` in `s` (what `str::find` gives,
/// counted in characters), if any.
pub open spec fn first_match(s: Seq<char>, pat: Seq<char>) -> Option<int> {
    if exists|i: int| is_first_match(s, pat, i) {
        Some(choose|i: int| is_first_match(s, pat, i))
    } else {
        None
    }
}

/// `pat` occurs somewhere in `s`.
pub open spec fn contains(s: Seq<char>, pat: Seq<char>) -> bool {
    exists|i: int| occurs_at(s, pat, i)
}

/// `s` begins with `pat`.
pub open spec fn starts_with(s: Seq<char>, pat: Seq<char>) -> bool {
    occurs_at(s, pat, 0)
}

/// `s` ends with `pat`.
pub open spec fn ends_with(s: Seq<char>, pat: Seq<char>) -> bool {
    pat.len() <= s.len() && occurs_at(s, pat, s.len() - pat.len())
}

/// There is at most one first occurrence, and any occurrence means there is one.
pub proof fn lemma_first_match(s: Seq<char>, pat: Seq<char>, i: int)
    ensures
        is_first_match(s, pat, i) ==> first_match(s, pat) == Some(i),
        occurs_at(s, pat, i) ==> first_match(s, pat) is Some,
        first_match(s, pat) matches Some(k) ==> is_first_match(s, pat, k) && k <= i || !occurs_at(
            s,
            pat,
            i,
        ),
    decreases i,
{
    if is_first_match(s, pat, i) {
        let k = choose|k: int| is_first_match(s, pat, k);
        assert(is_first_match(s, pat, k));
        if k < i {
            assert(!occurs_at(s, pat, k));
        }
        if k > i {
            assert(!occurs_at(s, pat, i));
        }
    }
    if occurs_at(s, pat, i) && !is_first_match(s, pat, i) {
        let j = choose|j: int| 0 <= j < i && occurs_at(s, pat, j);
        lemma_first_match(s, pat, j);
    }
    if first_match(s, pat) is Some {
        let k = choose|k: int| is_first_match(s, pat, k);
        assert(is_first_match(s, pat, k));
    }
}

/// No occurrence at all: `first_match` is `None` and `contains` is false.
pub proof fn lemma_no_match(s: Seq<char>, pat: Seq<char>)
    requires
        forall|i: int| !occurs_at(s, pat, i),
    ensures
        first_match(s, pat) is None,
        !contains(s, pat),
{
}

/// Whether `pat` occurs in `hay` at `pos`.
pub fn matches_at(hay: &Vec<char>, pos: usize, pat: &Vec<char>) -> (res: bool)
    ensures
        res == occurs_at(hay@, pat@, pos as int),
{
    if pos > hay.len() || pat.len() > hay.len() - pos {
        return false;
    }
    let mut k: usize = 0;
    while k < pat.len()
        invariant
            pos + pat@.len() <= hay.len(),
            k <= pat@.len(),
            forall|j: int| 0 <= j < k ==> hay@[pos + j] == pat@[j],
        decreases pat@.len() - k,
    {
        if hay[pos + k] != pat[k] {
            assert(hay@.subrange(pos as int, pos + pat@.len())[k as int] != pat@[k as int]);
            return false;
        }
        k = k + 1;
    }
    assert(hay@.subrange(pos as int, pos + pat@.len()) =~= pat@);
    true
}

/// First occurrence of `pat` in `hay[from..]`, as an index relative to `from`.
pub fn find_from(hay: &Vec<char>, from: usize, pat: &Vec<char>) -> (res: Option<usize>)
    requires
        from <= hay@.len(),
    ensures
        match res {
            Some(i) => first_match(hay@.skip(from as int), pat@) == Some(i as int),
            None => first_match(hay@.skip(from as int), pat@) is None,
        },
{
    let ghost rest = hay@.skip(from as int);
    let rest_len = hay.len() - from;
    if pat.len() > rest_len {
        proof {
            assert forall|j: int| !occurs_at(rest, pat@, j) by {}
            lemma_no_match(rest, pat@);
        }
        return None;
    }
    let limit = rest_len - pat.len();
    let mut i: usize = 0;
    loop
        invariant
            from <= hay@.len(),
            rest == hay@.skip(from as int),
            rest_len == rest.len(),
            from + rest_len == hay.len(),
            limit + pat@.len() == rest_len,
            i <= limit,
            forall|j: int| 0 <= j < i ==> !occurs_at(rest, pat@, j),
        decreases limit - i,
    {
        let hit = matches_at(hay, from + i, pat);
        assert(occurs_at(rest, pat@, i as int) == occurs_at(hay@, pat@, from + i)) by {
            assert(rest.subrange(i as int, i + pat@.len()) =~= hay@.subrange(
                from + i,
                from + i + pat@.len(),
            ));
        }
        if hit {
            proof {
                lemma_first_match(rest, pat@, i as int);
            }
            return Some(i);
        }
        if i == limit {
            proof {
                assert forall|j: int| !occurs_at(rest, pat@, j) by {
                    if 0 <= j < i {
                    }
                }
                lemma_no_match(rest, pat@);
            }
            return None;
        }
        i = i + 1;
    }
}

/// Appends `src[from..to]` to `out`.
pub fn append_range(out: &mut Vec<char>, src: &Vec<char>, from: usize, to: usize)
    requires
        from <= to <= src@.len(),
    ensures
        final(out)@ == old(out)@ + src@.subrange(from as int, to as int),
{
    let mut k = from;
    while k < to
        invariant
            from <= k <= to <= src@.len(),
            out@ == old(out)@ + src@.subrange(from as int, k as int),
        decreases to - k,
    {
        out.push(src[k]);
        k = k + 1;
        assert(out@ =~= old(out)@ + src@.subrange(from as int, k as int));
    }
}

/// Appends the characters of `s` to `out`.
pub fn append_str(out: &mut Vec<char>, s: &str)
    ensures
        final(out)@ == old(out)@ + s@,
{
    let v = chars_of(s);
    append_range(out, &v, 0, v.len());
    assert(v@.subrange(0, v@.len() as int) =~= v@);
}

/// A `String` holding the characters `v[from..to]`.
pub fn string_of(v: &Vec<char>, from: usize, to: usize) -> (res: String)
    requires
        from <= to <= v@.len(),
    ensures
        res@ == v@.subrange(from as int, to as int),
{
    let mut s = String::new();
    let mut k = from;
    while k < to
        invariant
            from <= k <= to <= v@.len(),
            s@ == v@.subrange(from as int, k as int),
        decreases to - k,
    {
        push_char(&mut s, v[k]);
        k = k + 1;
        assert(s@ =~= v@.subrange(from as int, k as int));
    }
    s
}

/// `char::is_whitespace`: the Unicode `White_Space` property.
pub open spec fn is_whitespace(c: char) -> bool {
    c == ' ' || ('\u{9}' <= c && c <= '\u{d}') || c == '\u{85}' || c == '\u{a0}' || c == '\u{1680}'
        || ('\u{2000}' <= c && c <= '\u{200a}') || c == '\u{2028}' || c == '\u{2029}' || c
        == '\u{202f}' || c == '\u{205f}' || c == '\u{3000}'
}

/// Executable `is_whitespace`.
pub fn whitespace(c: char) -> (res: bool)
    ensures
        res == is_whitespace(c),
{
    c == ' ' || ('\u{9}' <= c && c <= '\u{d}') || c == '\u{85}' || c == '\u{a0}' || c == '\u{1680}'
        || ('\u{2000}' <= c && c <= '\u{200a}') || c == '\u{2028}' || c == '\u{2029}' || c
        == '\u{202f}' || c == '\u{205f}' || c == '\u{3000}'
}

/// The characters that a trim removes: whitespace (`trim`), or the double
/// quote (`trim_matches('"')`).
pub open spec fn trimmed_char(c: char, quotes: bool) -> bool {
    if quotes {
        c == '"'
    } else {
        is_whitespace(c)
    }
}

/// Executable `trimmed_char`.
pub fn is_trimmed(c: char, quotes: bool) -> (res: bool)
    ensures
        res == trimmed_char(c, quotes),
{
    if quotes {
        c == '"'
    } else {
        whitespace(c)
    }
}

/// `s` without its leading trimmed characters.
pub open spec fn trim_start_by(s: Seq<char>, quotes: bool) -> Seq<char>
    decreases s.len(),
{
    if s.len() > 0 && trimmed_char(s[0], quotes) {
        trim_start_by(s.drop_first(), quotes)
    } else {
        s
    }
}

/// `s` without its trailing trimmed characters.
pub open spec fn trim_end_by(s: Seq<char>, quotes: bool) -> Seq<char>
    decreases s.len(),
{
    if s.len() > 0 && trimmed_char(s.last(), quotes) {
        trim_end_by(s.drop_last(), quotes)
    } else {
        s
    }
}

/// `s` without leading and trailing trimmed characters.
pub open spec fn trim_by(s: Seq<char>, quotes: bool) -> Seq<char> {
    trim_end_by(trim_start_by(s, quotes), quotes)
}

/// Bounds of the trimmed part of `v[from..to]`.
pub fn trim_range(v: &Vec<char>, from: usize, to: usize, quotes: bool) -> (res: (usize, usize))
    requires
        from <= to <= v@.len(),
    ensures
        from <= res.0 <= res.1 <= to,
        v@.subrange(res.0 as int, to as int) == trim_start_by(
            v@.subrange(from as int, to as int),
            quotes,
        ),
        v@.subrange(res.0 as int, res.1 as int) == trim_by(
            v@.subrange(from as int, to as int),
            quotes,
        ),
{
    let mut a = from;
    while a < to && is_trimmed(v[a], quotes)
        invariant
            from <= a <= to <= v@.len(),
            trim_start_by(v@.subrange(from as int, to as int), quotes) == trim_start_by(
                v@.subrange(a as int, to as int),
                quotes,
            ),
        decreases to - a,
    {
        assert(v@.subrange(a as int, to as int).drop_first() =~= v@.subrange(a + 1, to as int));
        a = a + 1;
    }
    assert(trim_start_by(v@.subrange(a as int, to as int), quotes) == v@.subrange(
        a as int,
        to as int,
    ));
    let mut b = to;
    while b > a && is_trimmed(v[b - 1], quotes)
        invariant
            from <= a <= b <= to <= v@.len(),
            trim_end_by(v@.subrange(a as int, to as int), quotes) == trim_end_by(
                v@.subrange(a as int, b as int),
                quotes,
            ),
        decreases b - a,
    {
        assert(v@.subrange(a as int, b as int).drop_last() =~= v@.subrange(a as int, b - 1));
        b = b - 1;
    }
    (a, b)
}

/// The UTF-8 encoding of a concatenation is the concatenation of encodings.
pub proof fn lemma_utf8_concat(a: Seq<char>, b: Seq<char>)
    ensures
        encode_utf8(a + b) == encode_utf8(a) + encode_utf8(b),
    decreases a.len(),
{
    if a.len() == 0 {
        assert(a + b =~= b);
        assert(encode_utf8(a) + encode_utf8(b) =~= encode_utf8(b));
    } else {
        assert((a + b).drop_first() =~= a.drop_first() + b);
        assert((a + b)[0] == a[0]);
        lemma_utf8_concat(a.drop_first(), b);
        assert(encode_utf8(a + b) =~= encode_utf8(a) + encode_utf8(b));
    }
}

/// The UTF-8 encoding of one character.
pub proof fn lemma_utf8_single(c: char)
    ensures
        encode_utf8(seq![c]) == encode_scalar(c as u32),
{
    let s = seq![c];
    assert(s.drop_first() =~= Seq::<char>::empty());
    assert(s[0] == c);
    assert(encode_utf8(s.drop_first()) == Seq::<u8>::empty());
    assert(encode_utf8(s) == encode_scalar(s[0] as u32) + encode_utf8(s.drop_first()));
    assert(encode_utf8(s) =~= encode_scalar(c as u32));
}

/// Number of bytes in the UTF-8 encoding of `c`.
pub fn char_width(c: char) -> (res: usize)
    ensures
        res == encode_scalar(c as u32).len(),
        1 <= res <= 4,
{
    proof {
        char_is_scalar(c);
    }
    if c <= '\u{7f}' {
        1
    } else if c <= '\u{7ff}' {
        2
    } else if c <= '\u{ffff}' {
        3
    } else {
        4
    }
}

/// Whether the UTF-8 encoding of `v` is longer than `n` bytes (`str::len() > n`).
pub fn utf8_len_exceeds(v: &Vec<char>, n: usize) -> (res: bool)
    ensures
        res == (encode_utf8(v@).len() > n),
{
    let mut acc: usize = 0;
    let mut i: usize = 0;
    while i < v.len()
        invariant
            i <= v@.len(),
            acc <= n,
            acc == encode_utf8(v@.take(i as int)).len(),
        decreases v@.len() - i,
    {
        let w = char_width(v[i]);
        proof {
            lemma_utf8_concat(v@.take(i as int), seq![v@[i as int]]);
            assert(v@.take(i as int) + seq![v@[i as int]] =~= v@.take(i + 1));
            lemma_utf8_single(v@[i as int]);
            lemma_utf8_concat(v@.take(i + 1), v@.skip(i + 1));
            assert(v@.take(i + 1) + v@.skip(i + 1) =~= v@);
        }
        if w > n - acc {
            return true;
        }
        acc = acc + w;
        i = i + 1;
    }
    assert(v@.take(v@.len() as int) =~= v@);
    false
}

/// `line` without one trailing carriage return.
pub open spec fn strip_cr(line: Seq<char>) -> Seq<char> {
    if line.len() > 0 && line.last() == '\r' {
        line.drop_last()
    } else {
        line
    }
}

/// The lines of `s` as `str::lines` gives them: cut at each `\n`, a `\r`
/// right before the `\n` dropped, and no empty line after a final `\n`.
pub open spec fn body_lines(s: Seq<char>) -> Seq<Seq<char>>
    decreases s.len(),
{
    if s.len() == 0 {
        Seq::empty()
    } else {
        match first_match(s, seq!['\n']) {
            Some(i) => if 0 <= i < s.len() {
                seq![strip_cr(s.take(i))] + body_lines(s.skip(i + 1))
            } else {
                Seq::empty()
            },
            None => seq![s],
        }
    }
}

/// No character of `s` is `c`.
pub open spec fn lacks(s: Seq<char>, c: char) -> bool {
    forall|i: int| 0 <= i < s.len() ==> s[i] != c
}

/// A one-character pattern occurs exactly where that character stands.
pub proof fn lemma_occurs_char(s: Seq<char>, c: char, j: int)
    ensures
        occurs_at(s, seq![c], j) <==> (0 <= j < s.len() && s[j] == c),
{
    if 0 <= j < s.len() {
        assert(s.subrange(j, j + 1) =~= seq![s[j]]);
        assert(seq![s[j]][0] == s[j]);
        assert(seq![c][0] == c);
    }
}

/// Every line of `s` is free of `\n` and no longer than `s`; a non-empty
/// text has at least one line.
pub proof fn lemma_body_lines_parts(s: Seq<char>)
    ensures
        forall|k: int|
            0 <= k < body_lines(s).len() ==> lacks(#[trigger] body_lines(s)[k], '\n')
                && body_lines(s)[k].len() <= s.len(),
        s.len() > 0 <==> body_lines(s).len() > 0,
    decreases s.len(),
{
    if s.len() > 0 {
        match first_match(s, seq!['\n']) {
            Some(i) => {
                lemma_first_match(s, seq!['\n'], i);
                lemma_occurs_char(s, '\n', i);
                let head = strip_cr(s.take(i));
                assert forall|j: int| 0 <= j < head.len() implies head[j] != '\n' by {
                    lemma_occurs_char(s, '\n', j);
                    assert(head[j] == s[j]);
                }
                lemma_body_lines_parts(s.skip(i + 1));
                let lines = body_lines(s);
                assert(lines == seq![head] + body_lines(s.skip(i + 1)));
                assert forall|k: int| 0 <= k < lines.len() implies lacks(#[trigger] lines[k], '\n')
                    && lines[k].len() <= s.len() by {
                    if k > 0 {
                        assert(lines[k] == body_lines(s.skip(i + 1))[k - 1]);
                    }
                }
            },
            None => {
                assert forall|j: int| 0 <= j < s.len() implies s[j] != '\n' by {
                    lemma_occurs_char(s, '\n', j);
                    lemma_first_match(s, seq!['\n'], j);
                }
            },
        }
    }
}

/// Joining two texts with a newline joins their lines, when the first is
/// not empty and ends in neither `\n` nor `\r`.
pub proof fn lemma_body_lines_concat(a: Seq<char>, b: Seq<char>)
    requires
        a.len() > 0,
        a.last() != '\n',
        a.last() != '\r',
    ensures
        body_lines(a + seq!['\n'] + b) == body_lines(a) + body_lines(b),
    decreases a.len(),
{
    let nl = seq!['\n'];
    let s = a + nl + b;
    match first_match(a, nl) {
        Some(i) => {
            lemma_first_match(a, nl, i);
            lemma_occurs_char(a, '\n', i);
            lemma_occurs_char(s, '\n', i);
            assert forall|j: int| 0 <= j < i implies !occurs_at(s, nl, j) by {
                lemma_occurs_char(a, '\n', j);
                lemma_occurs_char(s, '\n', j);
            }
            assert(is_first_match(s, nl, i));
            lemma_first_match(s, nl, i);
            let rest = a.skip(i + 1);
            assert(i < a.len() - 1);
            assert(rest.last() == a.last());
            lemma_body_lines_concat(rest, b);
            assert(s.take(i) =~= a.take(i));
            assert(s.skip(i + 1) =~= rest + nl + b);
            let head = seq![strip_cr(a.take(i))];
            assert(body_lines(s) == head + body_lines(rest + nl + b));
            assert(body_lines(a) == head + body_lines(rest));
            assert(head + (body_lines(rest) + body_lines(b)) =~= (head + body_lines(rest))
                + body_lines(b));
        },
        None => {
            let n = a.len() as int;
            assert forall|j: int| 0 <= j < n implies !occurs_at(s, nl, j) by {
                lemma_occurs_char(a, '\n', j);
                lemma_occurs_char(s, '\n', j);
                lemma_first_match(a, nl, j);
            }
            lemma_occurs_char(s, '\n', n);
            assert(is_first_match(s, nl, n));
            lemma_first_match(s, nl, n);
            assert(s.take(n) =~= a);
            assert(s.skip(n + 1) =~= b);
            assert(body_lines(s) == seq![a] + body_lines(b));
            assert(body_lines(a) == seq![a]);
        },
    }
}

/// The lines of `body`, as `str::lines` gives them.
pub fn split_body_lines(body: &str) -> (res: Vec<String>)
    ensures
        res@.map_values(|s: String| s@) == body_lines(body@),
        body@.len() <= usize::MAX,
{
    let v = chars_of(body);
    let nl = chars_of("\n");
    proof {
        reveal_strlit("\n");
        assert(nl@ =~= seq!['\n']);
    }
    let n = v.len();
    let mut lines: Vec<String> = Vec::new();
    let mut pos: usize = 0;
    assert(v@.skip(0) =~= v@);
    assert(Seq::<Seq<char>>::empty() + body_lines(v@.skip(0)) =~= body_lines(body@));
    while pos < n
        invariant
            pos <= n == v@.len(),
            v@ == body@,
            nl@ == seq!['\n'],
            body_lines(body@) == lines@.map_values(|s: String| s@) + body_lines(v@.skip(pos as int)),
        decreases n - pos,
    {
        let ghost rest = v@.skip(pos as int);
        let ghost done = lines@.map_values(|s: String| s@);
        let (end, next) = match find_from(&v, pos, &nl) {
            Some(i) => {
                proof {
                    lemma_first_match(rest, seq!['\n'], i as int);
                }
                if i > 0 && v[pos + i - 1] == '\r' {
                    (pos + i - 1, pos + i + 1)
                } else {
                    (pos + i, pos + i + 1)
                }
            },
            None => (n, n),
        };
        let line = string_of(&v, pos, end);
        proof {
            let l = line@;
            match first_match(rest, seq!['\n']) {
                Some(i) => {
                    assert(rest.take(i) =~= v@.subrange(pos as int, pos + i));
                    assert(l == strip_cr(rest.take(i)));
                    assert(rest.skip(i + 1) =~= v@.skip(next as int));
                },
                None => {
                    assert(l =~= rest);
                    assert(v@.skip(next as int) =~= Seq::<char>::empty());
                },
            }
            assert(body_lines(rest) == seq![l] + body_lines(v@.skip(next as int)));
        }
        lines.push(line);
        assert(lines@.map_values(|s: String| s@) =~= done.push(line@));
        assert(body_lines(body@) == lines@.map_values(|s: String| s@) + body_lines(
            v@.skip(next as int),
        ));
        pos = next;
    }
    assert(v@.skip(n as int) =~= Seq::<char>::empty());
    assert(lines@.map_values(|s: String| s@) + Seq::<Seq<char>>::empty() =~= lines@.map_values(
        |s: String| s@,
    ));
    lines
}

/// State of a split on `sep` after reading `s`: the finished pieces and the
/// piece being read.
pub open spec fn split_on_state(s: Seq<char>, sep: char) -> (Seq<Seq<char>>, Seq<char>)
    decreases s.len(),
{
    if s.len() == 0 {
        (Seq::empty(), Seq::empty())
    } else {
        let (done, cur) = split_on_state(s.drop_last(), sep);
        if s.last() == sep {
            (done.push(cur), Seq::empty())
        } else {
            (done, cur.push(s.last()))
        }
    }
}

/// The pieces of `s` between occurrences of `sep` (`str::split`): always at
/// least one piece, empty pieces included.
pub open spec fn split_on(s: Seq<char>, sep: char) -> Seq<Seq<char>> {
    let (done, cur) = split_on_state(s, sep);
    done.push(cur)
}

/// The pieces of `s` between occurrences of `sep`.
pub fn split_chars(s: &str, sep: char) -> (res: Vec<Vec<char>>)
    ensures
        res@.map_values(|p: Vec<char>| p@) == split_on(s@, sep),
{
    let v = chars_of(s);
    let mut done: Vec<Vec<char>> = Vec::new();
    let mut cur: Vec<char> = Vec::new();
    let mut k: usize = 0;
    while k < v.len()
        invariant
            k <= v@.len(),
            v@ == s@,
            (done@.map_values(|p: Vec<char>| p@), cur@) == split_on_state(v@.take(k as int), sep),
        decreases v@.len() - k,
    {
        let c = v[k];
        let ghost old_done = done@.map_values(|p: Vec<char>| p@);
        assert(v@.take(k + 1).drop_last() =~= v@.take(k as int));
        if c == sep {
            let finished = cur;
            done.push(finished);
            cur = Vec::new();
            assert(done@.map_values(|p: Vec<char>| p@) =~= old_done.push(finished@));
        } else {
            cur.push(c);
        }
        k = k + 1;
    }
    assert(v@.take(v@.len() as int) =~= v@);
    let ghost old_done = done@.map_values(|p: Vec<char>| p@);
    let last = cur;
    done.push(last);
    assert(done@.map_values(|p: Vec<char>| p@) =~= old_done.push(last@));
    done
}

/// `s` with ASCII upper-case letters made lower-case (`to_ascii_lowercase`).
pub open spec fn ascii_lower(s: Seq<char>) -> Seq<char> {
    s.map_values(|c: char| if 'A' <= c && c <= 'Z' {
        ((c as u32 + 32) as u8) as char
    } else {
        c
    })
}

/// The characters of `s`, ASCII letters lower-cased.
pub fn ascii_lowercase(s: &str) -> (res: Vec<char>)
    ensures
        res@ == ascii_lower(s@),
{
    let v = chars_of(s);
    let mut out: Vec<char> = Vec::new();
    let mut k: usize = 0;
    while k < v.len()
        invariant
            k <= v@.len(),
            v@ == s@,
            out@ == ascii_lower(v@.take(k as int)),
        decreases v@.len() - k,
    {
        let c = v[k];
        let lc = if 'A' <= c && c <= 'Z' {
            ((c as u32 + 32) as u8) as char
        } else {
            c
        };
        out.push(lc);
        k = k + 1;
        assert(out@ =~= ascii_lower(v@.take(k as int)));
    }
    assert(v@.take(v@.len() as int) =~= v@);
    out
}

/// Whether two strings hold the same characters.
pub fn same_text(a: &str, b: &str) -> (res: bool)
    ensures
        res == (a@ == b@),
{
    let v = chars_of(a);
    chars_equal(&v, b)
}

/// Whether `v` is exactly `s`.
pub fn chars_equal(v: &Vec<char>, s: &str) -> (res: bool)
    ensures
        res == (v@ == s@),
{
    let w = chars_of(s);
    if v.len() != w.len() {
        return false;
    }
    let r = matches_at(v, 0, &w);
    proof {
        if r {
            assert(v@.subrange(0, w@.len() as int) =~= v@);
        } else {
            assert(v@.subrange(0, w@.len() as int) =~= v@);
        }
    }
    r
}

/// The text of a list of string pairs.
pub open spec fn pair_texts(h: Seq<(String, String)>) -> Seq<(Seq<char>, Seq<char>)> {
    h.map_values(|p: (String, String)| (p.0@, p.1@))
}

/// Index of the first character of `v` that is not whitespace (`v.len()`
/// when there is none): `v[res..]` is `trim_start`.
pub fn skip_whitespace(v: &Vec<char>) -> (res: usize)
    ensures
        res <= v@.len(),
        v@.skip(res as int) == trim_start_by(v@, false),
{
    let mut a: usize = 0;
    assert(v@.skip(0) =~= v@);
    while a < v.len() && whitespace(v[a])
        invariant
            a <= v@.len(),
            trim_start_by(v@, false) == trim_start_by(v@.skip(a as int), false),
        decreases v@.len() - a,
    {
        assert(v@.skip(a as int).drop_first() =~= v@.skip(a + 1));
        a = a + 1;
    }
    a
}

/// The text of an optional string argument.
pub open spec fn opt_str(o: Option<&str>) -> Option<Seq<char>> {
    match o {
        Some(s) => Some(s@),
        None => None,
    }
}

/// The text of an optional `String`.
pub open spec fn opt_string(o: Option<String>) -> Option<Seq<char>> {
    match o {
        Some(s) => Some(s@),
        None => None,
    }
}

} // verus!
