use vstd::prelude::*;

verus! {

/// The kind of a block: a heading with its level, or a paragraph.
#[derive(Copy, Clone, PartialEq, Eq, Structural, Debug)]
pub enum Syntax {
    H(u8),
    P,
}

/// One classified unit of the document: its kind and its text.
#[derive(Debug)]
pub struct Block {
    syntax: Syntax,
    content: String,
}

impl View for Block {
    type V = (Syntax, Seq<char>);

    closed spec fn view(&self) -> (Syntax, Seq<char>) {
        (self.syntax, self.content@)
    }
}

/// An ordered, append-only sequence of blocks.
#[derive(Debug)]
pub struct Document(Vec<Block>);

/// The abstract document: each block as its kind and its text.
pub open spec fn blocks_of(v: Seq<Block>) -> Seq<(Syntax, Seq<char>)> {
    v.map_values(|b: Block| b@)
}

impl View for Document {
    type V = Seq<(Syntax, Seq<char>)>;

    closed spec fn view(&self) -> Seq<(Syntax, Seq<char>)> {
        blocks_of(self.0@)
    }
}

/// Whether an incoming block of kind `s` is folded into the last block of `doc`.
pub open spec fn merges(doc: Seq<(Syntax, Seq<char>)>, s: Syntax) -> bool {
    doc.len() > 0 && doc.last().0 == Syntax::P && s == Syntax::P
}

/// The document after appending the block `(s, c)` to `doc`: a paragraph that follows
/// a paragraph is joined onto it with one space; anything else becomes a new block.
pub open spec fn appended(doc: Seq<(Syntax, Seq<char>)>, s: Syntax, c: Seq<char>) -> Seq<
    (Syntax, Seq<char>),
> {
    if merges(doc, s) {
        doc.update(doc.len() - 1, (Syntax::P, doc.last().1 + seq![' '] + c))
    } else {
        doc.push((s, c))
    }
}

impl Document {
    /// An empty document.
    pub fn new() -> (r: Document)
        ensures
            r@ == Seq::<(Syntax, Seq<char>)>::empty(),
    {
        let r = Document(Vec::new());
        assert(r@ =~= Seq::<(Syntax, Seq<char>)>::empty());
        r
    }

    /// Adds a classified line: merged into the last block when both are paragraphs,
    /// else a new block.
    pub fn append(&mut self, syntax: Syntax, content: String)
        ensures
            final(self)@ == appended(old(self)@, syntax, content@),
    {
        let n = self.0.len();
        let ghost before = self.0@;
        if n > 0 && self.0[n - 1].syntax == Syntax::P && syntax == Syntax::P {
            let mut last = self.0.pop().unwrap();
            proof {
                reveal_strlit(" ");
            }
            last.content.append(" ");
            last.content.append(content.as_str());
            assert(last@ == (Syntax::P, blocks_of(before)[n - 1].1 + seq![' '] + content@));
            self.0.push(last);
            assert(self.0@ =~= before.update(n - 1, last));
            assert(self@ =~= appended(blocks_of(before), syntax, content@));
        } else {
            self.0.push(Block { syntax: syntax, content: content });
            assert(self@ =~= appended(blocks_of(before), syntax, content@));
        }
    }

    /// The number of blocks.
    pub fn len(&self) -> (r: usize)
        ensures
            r == self@.len(),
    {
        self.0.len()
    }

    /// The kind of the block at `i`.
    pub fn syntax(&self, i: usize) -> (r: Syntax)
        requires
            i < self@.len(),
        ensures
            r == self@[i as int].0,
    {
        self.0[i].syntax
    }

    /// The text of the block at `i`.
    pub fn content(&self, i: usize) -> (r: &str)
        requires
            i < self@.len(),
        ensures
            r@ == self@[i as int].1,
    {
        self.0[i].content.as_str()
    }
}

} // verus!
