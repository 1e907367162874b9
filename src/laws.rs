use vstd::prelude::*;

use crate::document::{appended, Syntax};
use crate::parser::{
    all_hashes,
    body,
    classify,
    has_boundary,
    join,
    line_content,
    line_syntax,
    words,
    lemma_words_push,
    lemma_words_shape,
};

verus! {

/// A run of `n` `#` characters.
pub open spec fn hashes(n: nat) -> Seq<char> {
    Seq::new(n, |_i: int| '#')
}

pub open spec fn no_spaces(s: Seq<char>) -> bool {
    forall|i: int| 0 <= i < s.len() ==> s[i] != ' '
}

/// A word without spaces after a space (or at the start of a line) adds exactly one
/// word.
proof fn lemma_words_append_word(pre: Seq<char>, b: Seq<char>)
    requires
        b.len() > 0,
        no_spaces(b),
        pre.len() == 0 || pre.last() == ' ',
    ensures
        words(pre + b) == words(pre).push(b),
    decreases b.len(),
{
    let b0 = b.drop_last();
    let c = b.last();
    assert(pre + b =~= (pre + b0).push(c));
    lemma_words_push(pre + b0, c);
    if b0.len() == 0 {
        assert(pre + b0 =~= pre);
        assert(seq![c] =~= b);
    } else {
        lemma_words_append_word(pre, b0);
        assert((pre + b0).last() == b0.last());
        assert(b0.push(c) =~= b);
        assert(words(pre).push(b0).update(words(pre).len() as int, b) =~= words(pre).push(b));
    }
}

/// A line that is a marker, one space and a word: its two words.
proof fn lemma_marker_line(a: Seq<char>, w: Seq<char>)
    requires
        a.len() > 0,
        no_spaces(a),
        w.len() > 0,
        no_spaces(w),
    ensures
        words(a + seq![' '] + w) == seq![a, w],
        has_boundary(a + seq![' '] + w),
{
    let e = Seq::<char>::empty();
    lemma_words_append_word(e, a);
    assert(e + a =~= a);
    let sp = a.push(' ');
    lemma_words_push(a, ' ');
    lemma_words_append_word(sp, w);
    let line = a + seq![' '] + w;
    assert(sp + w =~= line);
    assert(words(line) =~= seq![a, w]);
    assert(line[a.len() as int] == ' ');
    assert(line[a.len() - 1] != ' ');
}

/// One to six `#`, a space and a word make a heading of that level whose text is the
/// word.
pub proof fn heading_marker(level: nat, w: Seq<char>)
    requires
        1 <= level <= 6,
        w.len() > 0,
        no_spaces(w),
    ensures
        line_syntax(hashes(level) + seq![' '] + w) == Syntax::H(level as u8),
        line_content(hashes(level) + seq![' '] + w) == w,
{
    let a = hashes(level);
    lemma_marker_line(a, w);
    assert(all_hashes(a));
    assert(classify(a) == Syntax::H(level as u8));
    let ws = seq![a, w];
    assert(body(ws, Syntax::H(level as u8)) =~= seq![w]);
}

/// Seven or more `#`, a space and a word make a paragraph that keeps the whole line.
pub proof fn long_marker_is_text(n: nat, w: Seq<char>)
    requires
        n >= 7,
        w.len() > 0,
        no_spaces(w),
    ensures
        line_syntax(hashes(n) + seq![' '] + w) == Syntax::P,
        line_content(hashes(n) + seq![' '] + w) == hashes(n) + seq![' '] + w,
{
    let a = hashes(n);
    lemma_marker_line(a, w);
    let ws = seq![a, w];
    assert(ws.drop_last() =~= seq![a]);
    assert(join(ws.drop_last()) == a);
    assert(body(ws, Syntax::P) == ws);
    assert(join(ws) == a + seq![' '] + w);
}

/// A line without any space, the empty line included, is a paragraph holding the line
/// as it is.
pub proof fn spaceless_line_is_text(s: Seq<char>)
    requires
        no_spaces(s),
    ensures
        line_syntax(s) == Syntax::P,
        line_content(s) == s,
{
    assert(!has_boundary(s));
    if s.len() > 0 {
        let e = Seq::<char>::empty();
        lemma_words_append_word(e, s);
        assert(e + s =~= s);
    }
}

/// Appending two paragraphs one after the other gives the document that appending
/// their space-joined text once gives.
pub proof fn paragraph_merge_associative(
    doc: Seq<(Syntax, Seq<char>)>,
    a: Seq<char>,
    b: Seq<char>,
)
    ensures
        appended(appended(doc, Syntax::P, a), Syntax::P, b) == appended(
            doc,
            Syntax::P,
            a + seq![' '] + b,
        ),
{
    let d1 = appended(doc, Syntax::P, a);
    let lhs = appended(d1, Syntax::P, b);
    let rhs = appended(doc, Syntax::P, a + seq![' '] + b);
    if doc.len() > 0 && doc.last().0 == Syntax::P {
        assert(doc.last().1 + seq![' '] + a + seq![' '] + b =~= doc.last().1 + seq![' '] + (a
            + seq![' '] + b));
        assert(lhs =~= rhs);
    } else {
        assert(lhs =~= rhs);
    }
}

/// Three paragraphs appended in order give the same document as any grouping of them
/// into consecutive runs, each run joined by single spaces: the text keeps its order.
pub proof fn three_paragraphs_in_order(
    doc: Seq<(Syntax, Seq<char>)>,
    a: Seq<char>,
    b: Seq<char>,
    c: Seq<char>,
)
    ensures
        appended(appended(appended(doc, Syntax::P, a), Syntax::P, b), Syntax::P, c) == appended(
            appended(doc, Syntax::P, a),
            Syntax::P,
            b + seq![' '] + c,
        ),
        appended(appended(appended(doc, Syntax::P, a), Syntax::P, b), Syntax::P, c) == appended(
            appended(doc, Syntax::P, a + seq![' '] + b),
            Syntax::P,
            c,
        ),
        appended(appended(appended(doc, Syntax::P, a), Syntax::P, b), Syntax::P, c) == appended(
            doc,
            Syntax::P,
            a + seq![' '] + b + seq![' '] + c,
        ),
{
    let d1 = appended(doc, Syntax::P, a);
    paragraph_merge_associative(d1, b, c);
    paragraph_merge_associative(doc, a, b);
    paragraph_merge_associative(doc, a + seq![' '] + b, c);
    paragraph_merge_associative(doc, a, b + seq![' '] + c);
    assert(a + seq![' '] + (b + seq![' '] + c) =~= a + seq![' '] + b + seq![' '] + c);
}


/// Text in normal form: no space at either end and never two spaces in a row.
pub open spec fn normalized(c: Seq<char>) -> bool {
    &&& forall|i: int| 0 <= i < c.len() - 1 ==> !(#[trigger] c[i] == ' ' && c[i + 1] == ' ')
    &&& c.len() > 0 ==> c[0] != ' ' && c.last() != ' '
}

pub open spec fn clean_words(ws: Seq<Seq<char>>) -> bool {
    forall|k: int| 0 <= k < ws.len() ==> #[trigger] ws[k].len() > 0 && no_spaces(ws[k])
}

proof fn lemma_words_clean(s: Seq<char>)
    ensures
        clean_words(words(s)),
    decreases s.len(),
{
    if s.len() > 0 {
        let p = s.drop_last();
        let c = s.last();
        lemma_words_clean(p);
        assert(p.push(c) =~= s);
        lemma_words_push(p, c);
        let w = words(p);
        if c != ' ' {
            if p.len() > 0 && p.last() != ' ' {
                lemma_words_shape(p);
                let nw = w.last().push(c);
                assert(no_spaces(w[w.len() - 1]));
                assert(no_spaces(nw));
                assert(clean_words(w.update(w.len() - 1, nw)));
            } else {
                assert(no_spaces(seq![c]));
                assert(clean_words(w.push(seq![c])));
            }
        }
    }
}

proof fn lemma_join_clean(ws: Seq<Seq<char>>)
    requires
        clean_words(ws),
    ensures
        normalized(join(ws)),
        ws.len() > 0 ==> join(ws).len() > 0,
    decreases ws.len(),
{
    if ws.len() == 1 {
        assert(no_spaces(ws[0]));
    } else if ws.len() > 1 {
        let init = ws.drop_last();
        let l = ws.last();
        assert(clean_words(init)) by {
            assert forall|k: int| 0 <= k < init.len() implies #[trigger] init[k].len() > 0
                && no_spaces(init[k]) by {
                assert(init[k] == ws[k]);
            }
        }
        lemma_join_clean(init);
        let j = join(init);
        let r = j + seq![' '] + l;
        assert(r == join(ws));
        assert(l.len() > 0 && no_spaces(l)) by {
            assert(ws[ws.len() - 1] == l);
        }
        assert forall|i: int| 0 <= i < r.len() - 1 implies !(#[trigger] r[i] == ' ' && r[i + 1]
            == ' ') by {
            if i < j.len() - 1 {
                assert(r[i] == j[i] && r[i + 1] == j[i + 1]);
            } else if i == j.len() - 1 {
                assert(r[i] == j.last());
            } else if i == j.len() {
                assert(r[i + 1] == l[0]);
            } else {
                assert(r[i] == l[i - j.len() - 1]);
            }
        }
        assert(r[0] == j[0]);
        assert(r.last() == l.last());
    }
}

proof fn lemma_words_grow(s: Seq<char>, k: int)
    requires
        0 <= k <= s.len(),
    ensures
        words(s.take(k)).len() <= words(s).len(),
    decreases s.len(),
{
    if k < s.len() {
        let p = s.drop_last();
        assert(s.take(k) =~= p.take(k));
        lemma_words_grow(p, k);
        assert(p.push(s.last()) =~= s);
        lemma_words_push(p, s.last());
        lemma_words_shape(p);
    } else {
        assert(s.take(k) =~= s);
    }
}

/// A line whose first word is complete has at least one word.
proof fn lemma_boundary_has_word(s: Seq<char>)
    requires
        has_boundary(s),
    ensures
        words(s).len() >= 1,
{
    let j = choose|j: int| 0 < j < s.len() && #[trigger] s[j] == ' ' && s[j - 1] != ' ';
    let t = s.take(j);
    assert(t.last() == s[j - 1]);
    lemma_words_shape(t);
    lemma_words_grow(s, j);
}

/// The text of every line is in normal form: runs of spaces inside it collapse to
/// one, and it neither starts nor ends with a space.
pub proof fn line_content_normalized(s: Seq<char>)
    ensures
        normalized(line_content(s)),
{
    let ws = words(s);
    lemma_words_clean(s);
    if line_syntax(s) is H {
        lemma_boundary_has_word(s);
        let b = ws.skip(1);
        assert(clean_words(b)) by {
            assert forall|k: int| 0 <= k < b.len() implies #[trigger] b[k].len() > 0
                && no_spaces(b[k]) by {
                assert(b[k] == ws[k + 1]);
            }
        }
        lemma_join_clean(b);
    } else {
        lemma_join_clean(ws);
    }
}


/// A heading is never merged: appending one, or appending anything after one, adds a
/// new block at the end.
pub proof fn headings_never_merge(doc: Seq<(Syntax, Seq<char>)>, s: Syntax, c: Seq<char>)
    requires
        s is H || (doc.len() > 0 && doc.last().0 is H),
    ensures
        appended(doc, s, c) == doc.push((s, c)),
{
}

} // verus!
