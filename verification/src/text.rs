//! Splitting text into fields and lines, as the tools read their inputs: GPS
//! time stamps split at spaces, and lists of file names one per line.
use vstd::prelude::*;
use vstd::string::StringExecFns;

verus! {

/// The pieces of `s` between the occurrences of `sep`, in order, including
/// empty ones: what `str::split` with a `char` pattern yields.
pub open spec fn split_on(s: Seq<char>, sep: char) -> Seq<Seq<char>>
    decreases s.len(),
{
    if s.len() == 0 {
        seq![Seq::<char>::empty()]
    } else {
        let p = split_on(s.drop_last(), sep);
        if s.last() == sep {
            p.push(Seq::empty())
        } else {
            p.update(p.len() - 1, p.last().push(s.last()))
        }
    }
}

proof fn lemma_split_on_nonempty(s: Seq<char>, sep: char)
    ensures
        split_on(s, sep).len() >= 1,
    decreases s.len(),
{
    if s.len() > 0 {
        lemma_split_on_nonempty(s.drop_last(), sep);
    }
}

/// The characters of a list of character vectors, as a list of sequences.
pub open spec fn views(v: Seq<Vec<char>>) -> Seq<Seq<char>> {
    v.map_values(|x: Vec<char>| x@)
}

/// The strings of a list of strings, as a list of sequences.
pub open spec fn string_views(v: Seq<String>) -> Seq<Seq<char>> {
    v.map_values(|x: String| x@)
}

/// Collects characters into a `String` (`FromIterator<char>` for `String`,
/// through `Iterator::collect`); the string holds exactly those characters.
#[verifier::external_body]
pub(crate) fn string_from_chars(cs: &Vec<char>) -> (s: String)
    ensures
        s@ == cs@,
{
    cs.iter().collect()
}

fn split_chars(text: &str, sep: char) -> (r: Vec<Vec<char>>)
    ensures
        views(r@) == split_on(text@, sep),
{
    let mut pieces: Vec<Vec<char>> = Vec::new();
    let mut cur: Vec<char> = Vec::new();
    for c in it: text.chars()
        invariant
            it.seq() == text@,
            views(pieces@).push(cur@) == split_on(text@.take(it.index() as int), sep),
    {
        let ghost before = text@.take(it.index() as int);
        assert(text@.take(it.index() + 1).drop_last() == before);
        if c == sep {
            pieces.push(cur);
            cur = Vec::new();
            assert(views(pieces@).push(cur@) =~= split_on(text@.take(it.index() + 1), sep));
        } else {
            cur.push(c);
            assert(views(pieces@).push(cur@) =~= split_on(text@.take(it.index() + 1), sep));
        }
    }
    assert(text@.take(text@.len() as int) =~= text@);
    pieces.push(cur);
    pieces
}

fn to_strings(pieces: &Vec<Vec<char>>) -> (r: Vec<String>)
    ensures
        string_views(r@) == views(pieces@),
{
    let mut r: Vec<String> = Vec::new();
    let mut k: usize = 0;
    while k < pieces.len()
        invariant
            k <= pieces@.len(),
            string_views(r@) == views(pieces@.take(k as int)),
        decreases pieces@.len() - k,
    {
        let ghost prev = r@;
        let s = string_from_chars(&pieces[k]);
        r.push(s);
        assert(r@ == prev.push(s));
        assert(string_views(r@) =~= string_views(prev).push(s@));
        assert(views(pieces@.take(k + 1)) =~= views(pieces@.take(k as int)).push(pieces@[k as int]@));
        k = k + 1;
    }
    assert(pieces@.take(k as int) =~= pieces@);
    r
}

/// The pieces of `text` between the occurrences of `sep`, as `str::split`
/// yields them.
pub fn split_fields(text: &str, sep: char) -> (r: Vec<String>)
    ensures
        string_views(r@) == split_on(text@, sep),
{
    let pieces = split_chars(text, sep);
    to_strings(&pieces)
}

/// A line without the carriage return that ends it, if one does.
pub open spec fn strip_cr(line: Seq<char>) -> Seq<char> {
    if line.len() > 0 && line.last() == '\r' {
        line.drop_last()
    } else {
        line
    }
}

/// The lines of `s`, as `str::lines` yields them: the pieces between
/// newlines, each without the carriage return just before its newline, and
/// with no empty last line after a final newline (so no line at all for an
/// empty text).
pub open spec fn text_lines(s: Seq<char>) -> Seq<Seq<char>> {
    let parts = split_on(s, '\n');
    let ended = parts.drop_last().map_values(|p: Seq<char>| strip_cr(p));
    if parts.last().len() == 0 {
        ended
    } else {
        ended.push(parts.last())
    }
}

fn strip_cr_exec(line: &Vec<char>) -> (r: Vec<char>)
    ensures
        r@ == strip_cr(line@),
{
    let n = line.len();
    let keep = if n > 0 && line[n - 1] == '\r' {
        n - 1
    } else {
        n
    };
    let mut r: Vec<char> = Vec::new();
    let mut k: usize = 0;
    while k < keep
        invariant
            keep <= n,
            n == line@.len(),
            k <= keep,
            r@ == line@.take(k as int),
        decreases keep - k,
    {
        r.push(line[k]);
        assert(r@ =~= line@.take(k + 1));
        k = k + 1;
    }
    assert(r@ =~= strip_cr(line@));
    r
}

/// The lines of `text`, as `str::lines` yields them.
pub fn lines(text: &str) -> (r: Vec<String>)
    ensures
        string_views(r@) == text_lines(text@),
{
    let pieces = split_chars(text, '\n');
    proof {
        lemma_split_on_nonempty(text@, '\n');
    }
    let n = pieces.len();
    let ghost parts = split_on(text@, '\n');
    let mut kept: Vec<Vec<char>> = Vec::new();
    let mut k: usize = 0;
    while k + 1 < n
        invariant
            n == pieces@.len(),
            n >= 1,
            views(pieces@) == parts,
            k < n,
            views(kept@) == parts.take(k as int).map_values(|p: Seq<char>| strip_cr(p)),
        decreases n - k,
    {
        let ghost prev = kept@;
        let stripped = strip_cr_exec(&pieces[k]);
        kept.push(stripped);
        assert(views(kept@) =~= views(prev).push(stripped@));
        assert(parts[k as int] == pieces@[k as int]@);
        assert(parts.take(k + 1).map_values(|p: Seq<char>| strip_cr(p)) =~= parts.take(
            k as int,
        ).map_values(|p: Seq<char>| strip_cr(p)).push(strip_cr(parts[k as int])));
        k = k + 1;
    }
    assert(parts.take(k as int) =~= parts.drop_last());
    assert(parts.last() == pieces@[n - 1]@);
    if pieces[n - 1].len() > 0 {
        let ghost prev = kept@;
        let last = copy_chars(&pieces[n - 1]);
        kept.push(last);
        assert(views(kept@) =~= views(prev).push(parts.last()));
    }
    to_strings(&kept)
}

fn copy_chars(line: &Vec<char>) -> (r: Vec<char>)
    ensures
        r@ == line@,
{
    let mut r: Vec<char> = Vec::new();
    let mut k: usize = 0;
    while k < line.len()
        invariant
            k <= line@.len(),
            r@ == line@.take(k as int),
        decreases line@.len() - k,
    {
        r.push(line[k]);
        assert(r@ =~= line@.take(k + 1));
        k = k + 1;
    }
    assert(r@ =~= line@);
    r
}

/// `s` with every occurrence of the non-empty `pat` replaced by `to`,
/// matching from left to right without overlaps: what `str::replace` gives.
pub open spec fn replaced(s: Seq<char>, pat: Seq<char>, to: Seq<char>) -> Seq<char>
    decreases s.len(),
    when pat.len() > 0
{
    if s.len() < pat.len() {
        s
    } else if s.take(pat.len() as int) == pat {
        to + replaced(s.skip(pat.len() as int), pat, to)
    } else {
        seq![s[0]] + replaced(s.skip(1), pat, to)
    }
}

/// Calls `str::replace`, which replaces every match of `pat` in `s` with
/// `to`; the result is what `replaced` describes (leftmost matches first,
/// none overlapping). Empty patterns are left out.
#[verifier::external_body]
fn replace_str(s: &str, pat: &str, to: &str) -> (r: String)
    requires
        pat@.len() > 0,
    ensures
        r@ == replaced(s@, pat@, to@),
{
    s.replace(pat, to)
}

/// The placeholder that stands for the template key `key`: the key between
/// double braces.
pub open spec fn placeholder(key: Seq<char>) -> Seq<char> {
    "{{"@ + key + "}}"@
}

/// A template with the placeholders of the given entries filled in, one
/// entry after the other in the order given.
pub open spec fn filled(text: Seq<char>, entries: Seq<(String, String)>) -> Seq<char>
    decreases entries.len(),
{
    if entries.len() == 0 {
        text
    } else {
        let e = entries.last();
        replaced(filled(text, entries.drop_last()), placeholder(e.0@), e.1@)
    }
}

/// Fills in a template: for each `(key, value)` entry in turn, every
/// occurrence of `{{key}}` is replaced by `value`.
pub fn fill_template(text: String, entries: &Vec<(String, String)>) -> (r: String)
    ensures
        r@ == filled(text@, entries@),
{
    let mut data = text;
    let mut k: usize = 0;
    while k < entries.len()
        invariant
            k <= entries@.len(),
            data@ == filled(text@, entries@.take(k as int)),
        decreases entries@.len() - k,
    {
        proof {
            reveal_strlit("{{");
        }
        let e = &entries[k];
        let mut pat = String::from_str("{{");
        pat.append(e.0.as_str());
        pat.append("}}");
        assert(pat@ == placeholder(e.0@));
        data = replace_str(data.as_str(), pat.as_str(), e.1.as_str());
        assert(entries@.take(k + 1).drop_last() =~= entries@.take(k as int));
        k = k + 1;
    }
    assert(entries@.take(k as int) =~= entries@);
    data
}

proof fn lemma_split_on_last_piece(s: Seq<char>, sep: char)
    requires
        s.len() > 0,
        s.last() != sep,
    ensures
        split_on(s, sep).last().len() > 0,
        split_on(s, sep).last().last() == s.last(),
{
    lemma_split_on_nonempty(s.drop_last(), sep);
}

/// The final line ending is optional: a text that does not end in a line
/// ending has the same lines as the text with a newline added at its end.
pub proof fn law_final_newline_optional(s: Seq<char>)
    requires
        s.len() > 0,
        s.last() != '\n',
        s.last() != '\r',
    ensures
        text_lines(s.push('\n')) == text_lines(s),
{
    lemma_split_on_last_piece(s, '\n');
    lemma_split_on_nonempty(s, '\n');
    let parts = split_on(s, '\n');
    assert(s.push('\n').drop_last() =~= s);
    assert(split_on(s.push('\n'), '\n') == parts.push(Seq::<char>::empty()));
    assert(parts.push(Seq::<char>::empty()).drop_last() =~= parts);
    assert(strip_cr(parts.last()) == parts.last());
    assert(parts.map_values(|p: Seq<char>| strip_cr(p)) =~= parts.drop_last().map_values(
        |p: Seq<char>| strip_cr(p),
    ).push(parts.last()));
}

/// The text made of the given pieces, each followed by a newline.
pub open spec fn joined_lines(pieces: Seq<String>) -> Seq<char>
    decreases pieces.len(),
{
    if pieces.len() == 0 {
        Seq::empty()
    } else {
        joined_lines(pieces.drop_last()) + pieces.last()@ + seq!['\n']
    }
}

/// Concatenates the pieces, each followed by a newline (as the web server
/// joins the files that make up one page).
pub fn join_lines(pieces: &Vec<String>) -> (r: String)
    ensures
        r@ == joined_lines(pieces@),
{
    let mut r = String::new();
    let mut k: usize = 0;
    while k < pieces.len()
        invariant
            k <= pieces@.len(),
            r@ == joined_lines(pieces@.take(k as int)),
        decreases pieces@.len() - k,
    {
        proof {
            reveal_strlit("\n");
        }
        r.append(pieces[k].as_str());
        r.append("\n");
        assert(pieces@.take(k + 1).drop_last() =~= pieces@.take(k as int));
        k = k + 1;
    }
    assert(pieces@.take(k as int) =~= pieces@);
    r
}

proof fn lemma_split_on_extend(p: Seq<char>, w: Seq<char>, sep: char)
    requires
        !w.contains(sep),
    ensures
        split_on(p + w, sep) == split_on(p, sep).update(
            split_on(p, sep).len() - 1,
            split_on(p, sep).last() + w,
        ),
    decreases w.len(),
{
    lemma_split_on_nonempty(p, sep);
    if w.len() == 0 {
        assert(p + w =~= p);
        assert(split_on(p, sep).last() + w =~= split_on(p, sep).last());
        assert(split_on(p, sep).update(split_on(p, sep).len() - 1, split_on(p, sep).last())
            =~= split_on(p, sep));
    } else {
        let w1 = w.drop_last();
        assert(!w1.contains(sep)) by {
            if w1.contains(sep) {
                let k = choose|k: int| 0 <= k < w1.len() && w1[k] == sep;
                assert(w[k] == sep);
            }
        }
        assert(w.last() != sep) by {
            assert(w[w.len() - 1] == w.last());
        }
        lemma_split_on_extend(p, w1, sep);
        assert((p + w).drop_last() =~= p + w1);
        assert((p + w).last() == w.last());
        lemma_split_on_nonempty(p + w1, sep);
        assert(split_on(p + w, sep) =~= split_on(p, sep).update(
            split_on(p, sep).len() - 1,
            split_on(p, sep).last() + w,
        )) by {
            assert((split_on(p, sep).last() + w1).push(w.last()) =~= split_on(p, sep).last() + w);
        }
    }
}

/// Three pieces joined by a separator that none of them holds split back
/// into those three pieces.
pub proof fn lemma_split_three(a: Seq<char>, b: Seq<char>, c: Seq<char>, sep: char)
    requires
        !a.contains(sep),
        !b.contains(sep),
        !c.contains(sep),
    ensures
        split_on(a + seq![sep] + b + seq![sep] + c, sep) == seq![a, b, c],
{
    let e = Seq::<char>::empty();
    assert(split_on(e, sep) == seq![e]);
    lemma_split_on_extend(e, a, sep);
    assert(e + a =~= a);
    assert(split_on(a, sep) =~= seq![a]) by {
        assert(seq![e].update(0, e + a) =~= seq![a]);
    }
    let a1 = a + seq![sep];
    assert(a1.drop_last() =~= a);
    assert(a1.last() == sep);
    assert(split_on(a1, sep) =~= seq![a, e]);
    lemma_split_on_extend(a1, b, sep);
    assert(e + b =~= b);
    assert(split_on(a1 + b, sep) =~= seq![a, b]) by {
        assert(seq![a, e].update(1, e + b) =~= seq![a, b]);
    }
    let b1 = a1 + b + seq![sep];
    assert(b1.drop_last() =~= a1 + b);
    assert(b1.last() == sep);
    assert(split_on(b1, sep) =~= seq![a, b, e]);
    lemma_split_on_extend(b1, c, sep);
    assert(e + c =~= c);
    assert(split_on(b1 + c, sep) =~= seq![a, b, c]) by {
        assert(seq![a, b, e].update(2, e + c) =~= seq![a, b, c]);
    }
    assert(b1 + c =~= a + seq![sep] + b + seq![sep] + c);
}

proof fn lemma_split_joined(names: Seq<String>)
    requires
        forall|i: int| 0 <= i < names.len() ==> !(#[trigger] names[i]@).contains('\n'),
    ensures
        split_on(joined_lines(names), '\n') == string_views(names).push(Seq::<char>::empty()),
    decreases names.len(),
{
    if names.len() > 0 {
        let init = names.drop_last();
        let j = joined_lines(init);
        let l = names.last()@;
        assert(!l.contains('\n')) by {
            assert(names[names.len() - 1]@ == l);
        }
        lemma_split_joined(init);
        lemma_split_on_extend(j, l, '\n');
        let t = j + l + seq!['\n'];
        assert(t.drop_last() =~= j + l);
        assert(t.last() == '\n');
        assert(string_views(init).push(Seq::<char>::empty()).update(
            string_views(init).len() as int,
            Seq::<char>::empty() + l,
        ) =~= string_views(names)) by {
            assert(Seq::<char>::empty() + l =~= l);
        }
    } else {
        assert(string_views(names).push(Seq::<char>::empty()) =~= seq![Seq::<char>::empty()]);
    }
}

/// File names written one per line, each followed by a newline, are read
/// back as the same names, provided no name holds a newline or a carriage
/// return.
pub proof fn law_lines_of_joined_names(names: Seq<String>)
    requires
        forall|i: int|
            0 <= i < names.len() ==> !(#[trigger] names[i]@).contains('\n') && !names[i]@.contains(
                '\r',
            ),
    ensures
        text_lines(joined_lines(names)) == string_views(names),
{
    lemma_split_joined(names);
    let parts = split_on(joined_lines(names), '\n');
    assert(parts.drop_last() =~= string_views(names));
    assert forall|i: int| 0 <= i < names.len() implies strip_cr(string_views(names)[i])
        == string_views(names)[i] by {
        let x = names[i]@;
        if x.len() > 0 && x.last() == '\r' {
            assert(x[x.len() - 1] == '\r');
        }
    }
    assert(string_views(names).map_values(|p: Seq<char>| strip_cr(p)) =~= string_views(names));
}

/// Whether `pat` occurs in `s` starting at index `i`.
pub open spec fn matches_at(s: Seq<char>, pat: Seq<char>, i: int) -> bool {
    0 <= i && i + pat.len() <= s.len() && s.subrange(i, i + pat.len()) == pat
}

/// The first index at or after `start` where `pat` occurs in `s`, or `-1`.
pub open spec fn find_from(s: Seq<char>, pat: Seq<char>, start: int) -> int
    decreases s.len() + 1 - start,
{
    if start < 0 || start + pat.len() > s.len() {
        -1
    } else if matches_at(s, pat, start) {
        start
    } else {
        find_from(s, pat, start + 1)
    }
}

/// The two halves of the live page around its placeholder, as the page is
/// split at `{{points}}` and its first two pieces are kept: the text before
/// the first placeholder, and the text from there up to the second one (or
/// to the end). `None` when there is no placeholder.
pub open spec fn live_page_halves(html: Seq<char>) -> Option<(Seq<char>, Seq<char>)> {
    let pat = "{{points}}"@;
    let i = find_from(html, pat, 0);
    if i < 0 {
        None
    } else {
        let j = find_from(html, pat, i + pat.len());
        Some(
            (
                html.take(i),
                if j < 0 {
                    html.skip(i + pat.len())
                } else {
                    html.subrange(i + pat.len(), j)
                },
            ),
        )
    }
}

fn chars_of(text: &str) -> (r: Vec<char>)
    ensures
        r@ == text@,
{
    let mut r: Vec<char> = Vec::new();
    for c in it: text.chars()
        invariant
            it.seq() == text@,
            r@ == text@.take(it.index() as int),
    {
        r.push(c);
        assert(r@ =~= text@.take(it.index() + 1));
    }
    assert(text@.take(text@.len() as int) =~= text@);
    r
}

fn matches_at_exec(s: &Vec<char>, pat: &Vec<char>, i: usize) -> (b: bool)
    requires
        i + pat@.len() <= s@.len(),
    ensures
        b == matches_at(s@, pat@, i as int),
{
    let slen = s.len();
    let mut k: usize = 0;
    while k < pat.len()
        invariant
            i + pat@.len() <= s@.len(),
            k <= pat@.len(),
            i + k <= s@.len(),
            slen == s@.len(),
            forall|m: int| 0 <= m < k ==> s@[i + m] == pat@[m],
        decreases pat@.len() - k,
    {
        if s[i + k] != pat[k] {
            assert(s@.subrange(i as int, i + pat@.len())[k as int] != pat@[k as int]);
            return false;
        }
        k = k + 1;
    }
    assert(s@.subrange(i as int, i + pat@.len()) =~= pat@);
    true
}

fn find_from_exec(s: &Vec<char>, pat: &Vec<char>, start: usize) -> (r: Option<usize>)
    ensures
        match r {
            Some(i) => i as int == find_from(s@, pat@, start as int),
            None => find_from(s@, pat@, start as int) == -1,
        },
    decreases s@.len() + 1 - start,
{
    if start > s.len() || pat.len() > s.len() - start {
        return None;
    }
    if pat.len() == 0 {
        assert(s@.subrange(start as int, start as int) =~= pat@);
        return Some(start);
    }
    if matches_at_exec(s, pat, start) {
        Some(start)
    } else {
        find_from_exec(s, pat, start + 1)
    }
}

fn slice_chars(s: &Vec<char>, from: usize, to: usize) -> (r: String)
    requires
        from <= to <= s@.len(),
    ensures
        r@ == s@.subrange(from as int, to as int),
{
    let mut v: Vec<char> = Vec::new();
    let mut k: usize = from;
    while k < to
        invariant
            from <= k <= to <= s@.len(),
            v@ == s@.subrange(from as int, k as int),
        decreases to - k,
    {
        v.push(s[k]);
        assert(v@ =~= s@.subrange(from as int, k + 1));
        k = k + 1;
    }
    string_from_chars(&v)
}

/// Splits the live page at its `{{points}}` placeholder: the text before the
/// first placeholder and the text after it up to the next one (or to the
/// end); `None` when the page has no placeholder.
pub fn split_live_page(html: &str) -> (r: Option<(String, String)>)
    ensures
        match r {
            Some((a, b)) => live_page_halves(html@) == Some((a@, b@)),
            None => live_page_halves(html@) is None,
        },
{
    let s = chars_of(html);
    let pat = chars_of("{{points}}");
    let i = match find_from_exec(&s, &pat, 0) {
        Some(i) => i,
        None => return None,
    };
    proof {
        reveal_strlit("{{points}}");
        lemma_find_from_bounds(s@, pat@, 0);
    }
    let slen = s.len();
    let after = i + pat.len();
    let first = slice_chars(&s, 0, i);
    assert(s@.subrange(0, i as int) =~= s@.take(i as int));
    let second = match find_from_exec(&s, &pat, after) {
        Some(j) => {
            proof {
                lemma_find_from_bounds(s@, pat@, after as int);
            }
            slice_chars(&s, after, j)
        },
        None => {
            let t = slice_chars(&s, after, slen);
            assert(s@.subrange(after as int, s@.len() as int) =~= s@.skip(after as int));
            t
        },
    };
    Some((first, second))
}

proof fn lemma_find_from_bounds(s: Seq<char>, pat: Seq<char>, start: int)
    ensures
        find_from(s, pat, start) == -1 || (start <= find_from(s, pat, start) && find_from(
            s,
            pat,
            start,
        ) + pat.len() <= s.len()),
    decreases s.len() + 1 - start,
{
    if !(start < 0 || start + pat.len() > s.len()) && !matches_at(s, pat, start) {
        if pat.len() == 0 {
            assert(s.subrange(start, start) =~= pat);
        }
        lemma_find_from_bounds(s, pat, start + 1);
    }
}

proof fn lemma_replaced_skips_prefix(a: Seq<char>, rest: Seq<char>, pat: Seq<char>, to: Seq<char>)
    requires
        pat.len() > 0,
        forall|p: int| 0 <= p < a.len() ==> !matches_at(a + rest, pat, p),
    ensures
        replaced(a + rest, pat, to) == a + replaced(rest, pat, to),
    decreases a.len(),
{
    let s = a + rest;
    if a.len() == 0 {
        assert(s =~= rest);
        assert(a + replaced(rest, pat, to) =~= replaced(rest, pat, to));
    } else if s.len() < pat.len() {
        assert(rest.len() < pat.len());
        assert(a + rest =~= s);
    } else {
        assert(!matches_at(s, pat, 0));
        assert(s.take(pat.len() as int) != pat) by {
            if s.take(pat.len() as int) == pat {
                assert(s.subrange(0, pat.len() as int) =~= s.take(pat.len() as int));
            }
        }
        let a1 = a.skip(1);
        assert(s.skip(1) =~= a1 + rest);
        assert forall|p: int| 0 <= p < a1.len() implies !matches_at(a1 + rest, pat, p) by {
            assert(!matches_at(s, pat, p + 1));
            if matches_at(a1 + rest, pat, p) {
                assert((a1 + rest).subrange(p, p + pat.len()) =~= s.subrange(
                    p + 1,
                    p + 1 + pat.len(),
                ));
            }
        }
        lemma_replaced_skips_prefix(a1, rest, pat, to);
        assert(seq![s[0]] + (a1 + replaced(rest, pat, to)) =~= a + replaced(rest, pat, to));
    }
}

/// A placeholder is replaced by the value verbatim: filling a text
/// `a + {{key}} + b` with the single entry `(key, value)`, where the
/// placeholder occurs nowhere else (not in `b`, and not starting inside `a`),
/// gives `a + value + b`.
pub proof fn law_placeholder_filled_verbatim(
    text: Seq<char>,
    entries: Seq<(String, String)>,
    a: Seq<char>,
    b: Seq<char>,
)
    requires
        entries.len() == 1,
        text == a + placeholder(entries[0].0@) + b,
        forall|p: int|
            0 <= p < a.len() ==> !matches_at(text, placeholder(entries[0].0@), p),
        forall|p: int| 0 <= p < b.len() ==> !matches_at(b, placeholder(entries[0].0@), p),
    ensures
        filled(text, entries) == a + entries[0].1@ + b,
{
    reveal_strlit("{{");
    let pat = placeholder(entries[0].0@);
    let v = entries[0].1@;
    assert(pat.len() > 0);
    assert(entries.last() == entries[0]);
    assert(filled(text, entries.drop_last()) == text);
    assert(filled(text, entries) == replaced(text, pat, v));
    assert(text =~= a + (pat + b));
    lemma_replaced_skips_prefix(a, pat + b, pat, v);
    let pb = pat + b;
    assert(pb.take(pat.len() as int) =~= pat);
    assert(pb.skip(pat.len() as int) =~= b);
    assert(replaced(pb, pat, v) == v + replaced(b, pat, v));
    assert forall|p: int| 0 <= p < b.len() implies !matches_at(b + Seq::<char>::empty(), pat, p) by {
        assert(b + Seq::<char>::empty() =~= b);
    }
    lemma_replaced_skips_prefix(b, Seq::<char>::empty(), pat, v);
    assert(b + Seq::<char>::empty() =~= b);
    assert(replaced(Seq::<char>::empty(), pat, v) == Seq::<char>::empty());
    assert(b + Seq::<char>::empty() =~= b);
    assert(a + (v + b) =~= a + v + b);
}

/// Filling a template in two stages, first with some entries and then with
/// the rest, gives what filling it with all of them in that order gives.
pub proof fn law_fill_in_stages(
    text: Seq<char>,
    first: Seq<(String, String)>,
    rest: Seq<(String, String)>,
)
    ensures
        filled(filled(text, first), rest) == filled(text, first + rest),
    decreases rest.len(),
{
    if rest.len() == 0 {
        assert(first + rest =~= first);
    } else {
        law_fill_in_stages(text, first, rest.drop_last());
        assert((first + rest).drop_last() =~= first + rest.drop_last());
        assert((first + rest).last() == rest.last());
    }
}

proof fn lemma_find_from_meaning(s: Seq<char>, pat: Seq<char>, start: int)
    requires
        start >= 0,
    ensures
        find_from(s, pat, start) == -1 ==> forall|p: int|
            start <= p ==> !matches_at(s, pat, p),
        find_from(s, pat, start) != -1 ==> start <= find_from(s, pat, start) && matches_at(
            s,
            pat,
            find_from(s, pat, start),
        ) && forall|p: int| start <= p < find_from(s, pat, start) ==> !matches_at(s, pat, p),
    decreases s.len() + 1 - start,
{
    if start + pat.len() > s.len() {
    } else if matches_at(s, pat, start) {
    } else {
        if pat.len() == 0 {
            assert(s.subrange(start, start) =~= pat);
        }
        lemma_find_from_meaning(s, pat, start + 1);
    }
}

/// With exactly one placeholder, the live page's halves give the page back:
/// for `html = a + {{points}} + b`, where the placeholder starts nowhere in
/// `a` and occurs nowhere in `b`, the halves are `a` and `b`.
pub proof fn law_live_page_one_placeholder(html: Seq<char>, a: Seq<char>, b: Seq<char>)
    requires
        html == a + "{{points}}"@ + b,
        forall|p: int| 0 <= p < a.len() ==> !matches_at(html, "{{points}}"@, p),
        forall|p: int| 0 <= p < b.len() ==> !matches_at(b, "{{points}}"@, p),
    ensures
        live_page_halves(html) == Some((a, b)),
{
    reveal_strlit("{{points}}");
    let pat = "{{points}}"@;
    let n = pat.len();
    assert(html.subrange(a.len() as int, (a.len() + n) as int) =~= pat);
    assert(matches_at(html, pat, a.len() as int));
    lemma_find_from_meaning(html, pat, 0);
    let i = find_from(html, pat, 0);
    if i == -1 {
        assert(!matches_at(html, pat, a.len() as int));
    }
    if i < a.len() {
        assert(!matches_at(html, pat, i));
    }
    if i > a.len() {
        assert(!matches_at(html, pat, a.len() as int));
    }
    assert(i == a.len());
    let start = (a.len() + n) as int;
    lemma_find_from_meaning(html, pat, start);
    let j = find_from(html, pat, start);
    if j != -1 {
        let q = j - start;
        assert(html.subrange(j, j + n) =~= b.subrange(q, q + n));
        assert(matches_at(b, pat, q));
    }
    assert(html.take(i) =~= a);
    assert(html.skip(start) =~= b);
}

/// The live page's halves are taken from the page as it stands: the first
/// half, the placeholder and the second half make up the start of the page,
/// the first half holds no placeholder, and the second half ends where the
/// next placeholder starts or where the page ends.
pub proof fn law_live_page_halves_are_a_prefix(html: Seq<char>)
    ensures
        live_page_halves(html) matches Some((x, y)) ==> {
            &&& x + "{{points}}"@ + y == html.take((x.len() + "{{points}}"@.len() + y.len()) as int)
            &&& x.len() + "{{points}}"@.len() + y.len() <= html.len()
            &&& forall|p: int| 0 <= p < x.len() ==> !matches_at(html, "{{points}}"@, p)
            &&& forall|p: int|
                x.len() + "{{points}}"@.len() <= p < x.len() + "{{points}}"@.len() + y.len()
                    ==> !matches_at(html, "{{points}}"@, p)
            &&& (x.len() + "{{points}}"@.len() + y.len() == html.len() || matches_at(
                html,
                "{{points}}"@,
                (x.len() + "{{points}}"@.len() + y.len()) as int,
            ))
        },
{
    let pat = "{{points}}"@;
    lemma_find_from_meaning(html, pat, 0);
    let i = find_from(html, pat, 0);
    if i != -1 {
        let start = i + pat.len();
        lemma_find_from_meaning(html, pat, start);
        let j = find_from(html, pat, start);
        let x = html.take(i);
        let y = if j < 0 {
            html.skip(start)
        } else {
            html.subrange(start, j)
        };
        assert(html.subrange(i, i + pat.len()) == pat);
        assert(x + pat + y =~= html.take((x.len() + pat.len() + y.len()) as int));
    }
}

} // verus!
