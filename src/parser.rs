use vstd::prelude::*;

use crate::document::{appended, Document, Syntax};

verus! {

/// The words of a line: its maximal runs of non-space characters, in order.
pub open spec fn words(s: Seq<char>) -> Seq<Seq<char>>
    decreases s.len(),
{
    if s.len() == 0 {
        Seq::empty()
    } else {
        let p = s.drop_last();
        let c = s.last();
        let w = words(p);
        if c == ' ' {
            w
        } else if p.len() > 0 && p.last() != ' ' {
            w.update(w.len() - 1, w.last().push(c))
        } else {
            w.push(seq![c])
        }
    }
}

/// Words joined by single spaces.
pub open spec fn join(ws: Seq<Seq<char>>) -> Seq<char>
    decreases ws.len(),
{
    if ws.len() == 0 {
        Seq::empty()
    } else if ws.len() == 1 {
        ws[0]
    } else {
        join(ws.drop_last()) + seq![' '] + ws.last()
    }
}

/// Words joined by single spaces, followed by one more space when there are any.
pub open spec fn lead(ws: Seq<Seq<char>>) -> Seq<char> {
    if ws.len() == 0 {
        Seq::empty()
    } else {
        join(ws) + seq![' ']
    }
}

pub open spec fn all_hashes(t: Seq<char>) -> bool {
    forall|i: int| 0 <= i < t.len() ==> t[i] == '#'
}

/// The kind named by a line's first word: one to six `#` and nothing else make a
/// heading of that level; any other word starts a paragraph.
pub open spec fn classify(t: Seq<char>) -> Syntax {
    if 1 <= t.len() <= 6 && all_hashes(t) {
        Syntax::H(t.len() as u8)
    } else {
        Syntax::P
    }
}

/// Whether some space directly follows a non-space character, i.e. the first word
/// of the line is complete before the line ends.
pub open spec fn has_boundary(s: Seq<char>) -> bool {
    exists|j: int| 0 < j < s.len() && #[trigger] s[j] == ' ' && s[j - 1] != ' '
}

/// The kind of a line: decided by its first word once a space follows it, else a
/// paragraph.
pub open spec fn line_syntax(s: Seq<char>) -> Syntax {
    if has_boundary(s) {
        classify(words(s)[0])
    } else {
        Syntax::P
    }
}

/// The words of a line that make up its text under the kind `syn`: all of them, but
/// for a heading, whose first word is its marker.
pub open spec fn body(ws: Seq<Seq<char>>, syn: Syntax) -> Seq<Seq<char>> {
    if syn is H {
        ws.skip(1)
    } else {
        ws
    }
}

/// The text of a line: its words joined by single spaces, without a heading marker.
pub open spec fn line_content(s: Seq<char>) -> Seq<char> {
    join(body(words(s), line_syntax(s)))
}

/// The words of a line after one more character.
pub proof fn lemma_words_push(s: Seq<char>, c: char)
    ensures
        words(s.push(c)) == (if c == ' ' {
            words(s)
        } else if s.len() > 0 && s.last() != ' ' {
            words(s).update(words(s).len() - 1, words(s).last().push(c))
        } else {
            words(s).push(seq![c])
        }),
{
    assert(s.push(c).drop_last() =~= s);
}

/// Words are never empty, and a line ending in a non-space has a word.
pub proof fn lemma_words_shape(s: Seq<char>)
    ensures
        forall|k: int| 0 <= k < words(s).len() ==> #[trigger] words(s)[k].len() > 0,
        s.len() > 0 && s.last() != ' ' ==> words(s).len() > 0,
    decreases s.len(),
{
    if s.len() > 0 {
        let p = s.drop_last();
        lemma_words_shape(p);
        assert(p.push(s.last()) =~= s);
        lemma_words_push(p, s.last());
    }
}

proof fn lemma_join_push(ws: Seq<Seq<char>>, w: Seq<char>)
    ensures
        join(ws.push(w)) == lead(ws) + w,
{
    assert(ws.push(w).drop_last() =~= ws);
    if ws.len() == 0 {
        assert(lead(ws) + w =~= w);
    }
}

proof fn lemma_join_nonempty(ws: Seq<Seq<char>>)
    requires
        ws.len() > 0,
        forall|k: int| 0 <= k < ws.len() ==> #[trigger] ws[k].len() > 0,
    ensures
        join(ws).len() > 0,
{
}

proof fn lemma_boundary_push(s: Seq<char>, c: char)
    ensures
        has_boundary(s.push(c)) <==> (has_boundary(s) || (c == ' ' && s.len() > 0 && s.last()
            != ' ')),
{
    let t = s.push(c);
    if has_boundary(s) {
        let j = choose|j: int| 0 < j < s.len() && #[trigger] s[j] == ' ' && s[j - 1] != ' ';
        assert(t[j] == ' ');
    }
    if c == ' ' && s.len() > 0 && s.last() != ' ' {
        assert(t[s.len() as int] == ' ');
    }
    if has_boundary(t) {
        let j = choose|j: int| 0 < j < t.len() && #[trigger] t[j] == ' ' && t[j - 1] != ' ';
        if j < s.len() {
            assert(s[j] == ' ');
        }
    }
}

/// Relies on String::push: appends one character.
#[verifier::external_body]
fn push_char(s: &mut String, c: char)
    ensures
        final(s)@ == old(s)@.push(c),
{
    s.push(c);
}

#[derive(Copy, Clone, PartialEq, Eq, Structural)]
enum BufferState {
    Word,
    Space,
}

/// The scanner of one line: the current token and whether it is a word or a run of
/// spaces.
struct Buffer(String, BufferState);

impl Buffer {
    fn new() -> (r: Buffer)
        ensures
            r.0@ == Seq::<char>::empty(),
            r.1 == BufferState::Space,
    {
        Buffer(String::new(), BufferState::Space)
    }

    fn content(&self) -> (r: &str)
        ensures
            r@ == self.0@,
    {
        self.0.as_str()
    }

    fn state(&self) -> (r: BufferState)
        ensures
            r == self.1,
    {
        self.1
    }

    fn push(&mut self, c: char)
        ensures
            final(self).0@ == old(self).0@.push(c),
            final(self).1 == old(self).1,
    {
        push_char(&mut self.0, c);
    }

    fn switch(&mut self)
        ensures
            final(self).0@ == old(self).0@,
            final(self).1 == (if old(self).1 == BufferState::Word {
                BufferState::Space
            } else {
                BufferState::Word
            }),
    {
        self.1 = match self.1 {
            BufferState::Word => BufferState::Space,
            BufferState::Space => BufferState::Word,
        };
    }

    fn flush(&mut self)
        ensures
            final(self).0@ == Seq::<char>::empty(),
            final(self).1 == old(self).1,
    {
        self.0 = String::new();
    }
}

/// The state of the classifier while it scans one line.
pub struct Parser {
    syntax: Option<Syntax>,
    content: String,
    buffer: Buffer,
}

impl Parser {
    fn check_header(&self, s: &str) -> (r: Syntax)
        requires
            s@.len() > 0,
        ensures
            r == classify(s@),
    {
        let n = s.unicode_len();
        let mut level: u8 = 0;
        let mut i: usize = 0;
        while i < n
            invariant
                n == s@.len(),
                i <= n,
                level as int == i,
                i <= 6,
                all_hashes(s@.take(i as int)),
            decreases n - i,
        {
            let c = s.get_char(i);
            if level <= 5 && c == '#' {
                level = level + 1;
                i = i + 1;
                assert(all_hashes(s@.take(i as int))) by {
                    assert forall|k: int| 0 <= k < i implies s@.take(i as int)[k] == '#' by {
                        if k < i - 1 {
                            assert(s@.take(i as int - 1)[k] == '#');
                        }
                    }
                }
            } else {
                assert(s@[i as int] != '#' || s@.len() > 6);
                assert(!all_hashes(s@) || s@.len() > 6);
                return Syntax::P;
            }
        }
        assert(s@.take(i as int) =~= s@);
        Syntax::H(level)
    }

    fn get_syntax(&self, s: &str) -> (r: Syntax)
        requires
            s@.len() > 0,
        ensures
            r == classify(s@),
    {
        if s.get_char(0) == '#' {
            self.check_header(s)
        } else {
            Syntax::P
        }
    }
}


impl Parser {
    /// Emits the pending token into the content: a word as it is, a run of spaces as
    /// one separator when some content precedes it. Then clears the token.
    fn write(&mut self)
        ensures
            final(self).syntax == old(self).syntax,
            final(self).buffer.1 == old(self).buffer.1,
            final(self).buffer.0@ == Seq::<char>::empty(),
            final(self).content@ == (if old(self).buffer.1 == BufferState::Word {
                old(self).content@ + old(self).buffer.0@
            } else if old(self).content@.len() > 0 {
                old(self).content@.push(' ')
            } else {
                old(self).content@
            }),
    {
        match self.buffer.state() {
            BufferState::Word => self.content.append(self.buffer.content()),
            BufferState::Space => {
                if !self.content.as_str().is_empty() {
                    push_char(&mut self.content, ' ');
                }
            },
        }
        self.buffer.flush();
    }
}


impl Parser {
    /// Classifies one line and gathers its text.
    pub fn parse(line: &str) -> (r: (Syntax, String))
        ensures
            r.0 == line_syntax(line@),
            r.1@ == line_content(line@),
    {
        let mut parser = Parser { syntax: None, content: String::new(), buffer: Buffer::new() };
        let n = line.unicode_len();
        let mut i: usize = 0;
        while i < n
            invariant
                n == line@.len(),
                i <= n,
                ({
                    let p = line@.take(i as int);
                    let ws = words(p);
                    let word = parser.buffer.1 == BufferState::Word;
                    &&& word <==> (i > 0 && line@[i - 1] != ' ')
                    &&& word ==> ws.len() >= 1 && parser.buffer.0@ == ws.last()
                    &&& parser.syntax is Some <==> has_boundary(p)
                    &&& parser.syntax is Some ==> ws.len() >= 1 && parser.syntax->0 == classify(
                        ws[0],
                    )
                    &&& parser.syntax is Some && word ==> ws.len() >= 2
                    &&& parser.syntax is None && word ==> ws.len() == 1
                    &&& parser.syntax is None && !word ==> ws.len() == 0
                    &&& word ==> parser.content@ == lead(
                        body(ws, parser.syntax.unwrap_or(Syntax::P)).drop_last(),
                    )
                    &&& !word ==> parser.content@ == join(
                        body(ws, parser.syntax.unwrap_or(Syntax::P)),
                    )
                }),
            decreases n - i,
        {
            let c = line.get_char(i);
            let ghost p = line@.take(i as int);
            let ghost ws = words(p);
            proof {
                assert(line@.take(i + 1) =~= p.push(c));
                lemma_words_push(p, c);
                lemma_boundary_push(p, c);
                lemma_words_shape(p);
                if i > 0 {
                    assert(p.last() == line@[i - 1]);
                }
            }
            match (parser.buffer.state(), c) {
                (BufferState::Word, ' ') => {
                    if parser.syntax.is_some() {
                        parser.write();
                        parser.buffer.switch();
                        proof {
                            let b = body(ws, parser.syntax.unwrap_or(Syntax::P));
                            assert(b.drop_last().push(b.last()) =~= b);
                            lemma_join_push(b.drop_last(), b.last());
                        }
                    } else {
                        let syntax = parser.get_syntax(parser.buffer.content());
                        if syntax == Syntax::P {
                            parser.write();
                        }
                        parser.syntax = Some(syntax);
                        parser.buffer.switch();
                        proof {
                            assert(ws.skip(1) =~= Seq::<Seq<char>>::empty());
                        }
                    }
                },
                (BufferState::Word, _) | (BufferState::Space, ' ') => {
                    parser.buffer.push(c);
                    proof {
                        if parser.buffer.1 == BufferState::Word {
                            let w2 = ws.update(ws.len() - 1, ws.last().push(c));
                            if parser.syntax is Some {
                                assert(w2.skip(1).drop_last() =~= ws.skip(1).drop_last());
                            }
                            assert(w2.drop_last() =~= ws.drop_last());
                        }
                    }
                },
                (BufferState::Space, _) => {
                    proof {
                        let b = body(ws, parser.syntax.unwrap_or(Syntax::P));
                        if b.len() > 0 {
                            lemma_join_nonempty(b);
                        }
                        if ws.len() >= 1 {
                            assert(ws.push(seq![c]).skip(1) =~= ws.skip(1).push(seq![c]));
                        }
                        assert(ws.push(seq![c]).drop_last() =~= ws);
                        assert(ws.skip(1).push(seq![c]).drop_last() =~= ws.skip(1));
                    }
                    parser.write();
                    parser.buffer.switch();
                    parser.buffer.push(c);
                    proof {
                        assert(parser.buffer.0@ =~= seq![c]);
                    }
                },
            };
            i = i + 1;
        }
        let ghost ws = words(line@);
        proof {
            assert(line@.take(n as int) =~= line@);
        }
        if parser.buffer.state() == BufferState::Word {
            parser.write();
            proof {
                let b = body(ws, parser.syntax.unwrap_or(Syntax::P));
                assert(b.drop_last().push(b.last()) =~= b);
                lemma_join_push(b.drop_last(), b.last());
            }
        }
        match parser.syntax {
            Some(syntax) => (syntax, parser.content),
            None => (Syntax::P, parser.content),
        }
    }
}


/// The document that a sequence of lines reads as: each line classified, then
/// appended in order.
pub open spec fn document_of(lines: Seq<Seq<char>>) -> Seq<(Syntax, Seq<char>)>
    decreases lines.len(),
{
    if lines.len() == 0 {
        Seq::empty()
    } else {
        let l = lines.last();
        appended(document_of(lines.drop_last()), line_syntax(l), line_content(l))
    }
}

/// Reads whole documents, line by line.
pub struct MDParser;

impl MDParser {
    /// Classifies each line in order and folds it into a new document.
    pub fn parse(lines: &Vec<String>) -> (r: Document)
        ensures
            r@ == document_of(lines.deep_view()),
    {
        let mut document = Document::new();
        let n = lines.len();
        let mut i: usize = 0;
        while i < n
            invariant
                n == lines@.len(),
                i <= n,
                document@ == document_of(lines.deep_view().take(i as int)),
            decreases n - i,
        {
            let (syntax, content) = Parser::parse(lines[i].as_str());
            document.append(syntax, content);
            proof {
                let t = lines.deep_view().take(i + 1);
                assert(t.drop_last() =~= lines.deep_view().take(i as int));
            }
            i = i + 1;
        }
        proof {
            assert(lines.deep_view().take(n as int) =~= lines.deep_view());
        }
        document
    }
}

} // verus!
