//! A small terminal element hierarchy: plain text, bold headings, and
//! bordered containers, with verified layout (`dimensions`) and rendering
//! (`render`).

use vstd::prelude::*;
use vstd::string::StrSliceExecFns;
use vstd::string::StringExecFns;

verus! {

/// A bounding box, in character cells.
#[derive(Clone, Copy, Debug, PartialEq, Eq, Structural)]
pub struct Dimensions {
    pub width: usize,
    pub height: usize,
}

/// A drawable element of the terminal interface.
pub enum Element {
    Text(Text),
    Heading(Heading),
    Container(Container),
}

/// A run of plain text.
pub struct Text {
    pub text: String,
}

/// A heading: a run of text drawn in bold.
pub struct Heading {
    pub text: Text,
}

/// A bordered box around an ordered sequence of child elements.
pub struct Container {
    pub children: Vec<Element>,
}

/// The width, in character cells, that `e` occupies: the character count for
/// text and headings, and the widest child plus two border columns for a
/// container.
pub open spec fn elem_width(e: Element) -> nat
    decreases e,
{
    match e {
        Element::Text(t) => t.text@.len(),
        Element::Heading(h) => h.text.text@.len(),
        Element::Container(c) => max_child_width(c.children@) + 2,
    }
}

/// The largest width among `children`, or 0 if there are none.
pub open spec fn max_child_width(children: Seq<Element>) -> nat
    decreases children,
{
    if children.len() == 0 {
        0
    } else {
        let head = max_child_width(children.drop_last());
        let last = elem_width(children.last());
        if last >= head {
            last
        } else {
            head
        }
    }
}

/// The height, in rows, that `e` reports: 0 for text and headings, and the
/// sum of the children's heights for a container.
pub open spec fn elem_height(e: Element) -> nat
    decreases e,
{
    match e {
        Element::Text(_) => 0,
        Element::Heading(_) => 0,
        Element::Container(c) => total_child_height(c.children@),
    }
}

/// The sum of the heights of `children`.
pub open spec fn total_child_height(children: Seq<Element>) -> nat
    decreases children,
{
    if children.len() == 0 {
        0
    } else {
        total_child_height(children.drop_last()) + elem_height(children.last())
    }
}

/// No child is wider than the maximum over its sequence.
pub proof fn lemma_max_child_width_bound(children: Seq<Element>, i: int)
    requires
        0 <= i < children.len(),
    ensures
        elem_width(children[i]) <= max_child_width(children),
    decreases children.len(),
{
    if i == children.len() - 1 {
        assert(children.last() == children[i]);
    } else {
        lemma_max_child_width_bound(children.drop_last(), i);
        assert(children.drop_last()[i] == children[i]);
    }
}

/// Every element reports height 0: text and headings do so directly, and a
/// container sums the heights of its children.
pub proof fn lemma_height_zero(e: Element)
    ensures
        elem_height(e) == 0,
    decreases e,
{
    match e {
        Element::Container(c) => {
            lemma_total_height_zero(c.children@);
        }
        _ => {}
    }
}

proof fn lemma_total_height_zero(children: Seq<Element>)
    ensures
        total_child_height(children) == 0,
    decreases children,
{
    if children.len() > 0 {
        lemma_height_zero(children.last());
        lemma_total_height_zero(children.drop_last());
    }
}

/// The escape sequence that switches bold styling on.
pub open spec fn bold_on() -> Seq<char> {
    seq!['\u{1b}', '[', '1', 'm']
}

/// The escape sequence that switches bold styling off.
pub open spec fn bold_off() -> Seq<char> {
    seq!['\u{1b}', '[', '0', 'm']
}

/// `n` copies of the character `c`.
pub open spec fn repeated(c: char, n: nat) -> Seq<char> {
    Seq::new(n, |i: int| c)
}

/// A horizontal border: `+`, a dash for each inner column, `+`.
pub open spec fn border_line(inner: nat) -> Seq<char> {
    seq!['+'] + repeated('-', inner) + seq!['+']
}

/// The characters that `render` emits for `e`.
pub open spec fn rendering(e: Element) -> Seq<char>
    decreases e,
{
    match e {
        Element::Text(t) => t.text@,
        Element::Heading(h) => bold_on() + h.text.text@ + bold_off(),
        Element::Container(c) => {
            let inner = max_child_width(c.children@);
            border_line(inner) + child_lines(c.children@, inner) + border_line(inner)
        }
    }
}

/// One row per child, in order: `|`, the child's rendering, spaces padding
/// the row to `inner` columns, `|`, and a newline.
pub open spec fn child_lines(children: Seq<Element>, inner: nat) -> Seq<char>
    decreases children,
{
    if children.len() == 0 {
        Seq::<char>::empty()
    } else {
        child_lines(children.drop_last(), inner)
            + seq!['|']
            + rendering(children.last())
            + repeated(' ', (inner - elem_width(children.last())) as nat)
            + seq!['|', '\n']
    }
}

/// Appends `n` copies of the single character of `piece` to `out`.
fn append_repeated(out: &mut String, piece: &str, n: usize)
    requires
        piece@.len() == 1,
    ensures
        final(out)@ == old(out)@ + repeated(piece@[0], n as nat),
{
    let mut i: usize = 0;
    proof {
        assert(old(out)@ + repeated(piece@[0], 0) =~= old(out)@);
    }
    while i < n
        invariant
            i <= n,
            piece@.len() == 1,
            out@ == old(out)@ + repeated(piece@[0], i as nat),
        decreases n - i,
    {
        out.append(piece);
        proof {
            assert(piece@ =~= seq![piece@[0]]);
            assert(out@ =~= old(out)@ + repeated(piece@[0], (i + 1) as nat));
        }
        i += 1;
    }
}

impl Text {
    /// Wraps `text` as a plain text element.
    pub fn new(text: String) -> (r: Text)
        ensures
            r.text@ == text@,
    {
        Text { text }
    }

    /// The bounding box of the text: its character count, and height 0.
    pub fn dimensions(&self) -> (d: Dimensions)
        ensures
            d.width == self.text@.len(),
            d.height == 0,
    {
        Dimensions { width: self.text.as_str().unicode_len(), height: 0 }
    }

    /// Renders the text: exactly its own characters.
    pub fn render(&self) -> (out: String)
        ensures
            out@ == self.text@,
    {
        self.text.clone()
    }
}

impl Heading {
    /// Wraps `text` as a heading element.
    pub fn new(text: String) -> (r: Heading)
        ensures
            r.text.text@ == text@,
    {
        Heading { text: Text::new(text) }
    }

    /// The bounding box of the heading: identical to its inner text's.
    pub fn dimensions(&self) -> (d: Dimensions)
        ensures
            d.width == self.text.text@.len(),
            d.height == 0,
    {
        self.text.dimensions()
    }

    /// Renders the heading: the bold-on marker, the text, the bold-off
    /// marker.
    pub fn render(&self) -> (out: String)
        ensures
            out@ == bold_on() + self.text.text@ + bold_off(),
    {
        proof {
            reveal_strlit("\u{1b}[1m");
            reveal_strlit("\u{1b}[0m");
            assert("\u{1b}[1m"@ =~= bold_on());
            assert("\u{1b}[0m"@ =~= bold_off());
        }
        let mut out = String::new();
        out.append("\u{1b}[1m");
        let inner = self.text.render();
        out.append(inner.as_str());
        out.append("\u{1b}[0m");
        out
    }
}

impl Container {
    /// Wraps an ordered sequence of children as a container element.
    pub fn new(children: Vec<Element>) -> (r: Container)
        ensures
            r.children@ == children@,
    {
        Container { children }
    }

    /// The bounding box of the container: two border columns around the
    /// widest child, and the sum of the children's heights.
    pub fn dimensions(&self) -> (d: Dimensions)
        requires
            max_child_width(self.children@) + 2 <= usize::MAX,
        ensures
            d.width == max_child_width(self.children@) + 2,
            d.height == total_child_height(self.children@),
        decreases *self,
    {
        let mut maxw: usize = 0;
        let mut height: usize = 0;
        let mut i: usize = 0;
        while i < self.children.len()
            invariant
                i <= self.children@.len(),
                max_child_width(self.children@) + 2 <= usize::MAX,
                maxw == max_child_width(self.children@.take(i as int)),
                height == total_child_height(self.children@.take(i as int)),
            decreases self.children@.len() - i,
        {
            let ghost pre = self.children@.take(i as int);
            let ghost cur = self.children@.take(i as int + 1);
            proof {
                assert(cur.drop_last() =~= pre);
                assert(cur.last() == self.children@[i as int]);
                lemma_max_child_width_bound(self.children@, i as int);
                lemma_height_zero(self.children@[i as int]);
                lemma_take_height_zero(self.children@, i as int);
            }
            let d = self.children[i].dimensions();
            if d.width > maxw {
                maxw = d.width;
            }
            height = height + d.height;
            i += 1;
        }
        proof {
            assert(self.children@.take(i as int) =~= self.children@);
        }
        Dimensions { width: maxw + 2, height }
    }

    /// Renders the container: a top border, one padded row per child, and a
    /// bottom border.
    pub fn render(&self) -> (out: String)
        requires
            max_child_width(self.children@) + 2 <= usize::MAX,
        ensures
            out@ == border_line(max_child_width(self.children@))
                + child_lines(self.children@, max_child_width(self.children@))
                + border_line(max_child_width(self.children@)),
        decreases *self,
    {
        let d = self.dimensions();
        let inner = d.width - 2;
        let ghost w = max_child_width(self.children@);
        let mut out = String::new();
        push_border(&mut out, inner);
        proof {
            assert(out@ =~= border_line(w));
        }
        let mut i: usize = 0;
        while i < self.children.len()
            invariant
                i <= self.children@.len(),
                inner == max_child_width(self.children@),
                inner + 2 <= usize::MAX,
                out@ == border_line(inner as nat) + child_lines(self.children@.take(i as int), inner as nat),
            decreases self.children@.len() - i,
        {
            let ghost pre = self.children@.take(i as int);
            let ghost cur = self.children@.take(i as int + 1);
            proof {
                assert(cur.drop_last() =~= pre);
                assert(cur.last() == self.children@[i as int]);
                lemma_max_child_width_bound(self.children@, i as int);
                reveal_strlit("|");
                reveal_strlit("|\n");
                reveal_strlit(" ");
            }
            let child = &self.children[i];
            let cd = child.dimensions();
            out.append("|");
            let body = child.render();
            out.append(body.as_str());
            append_repeated(&mut out, " ", inner - cd.width);
            out.append("|\n");
            proof {
                assert("|"@ =~= seq!['|']);
                assert("|\n"@ =~= seq!['|', '\n']);
                assert(out@ =~= border_line(inner as nat) + child_lines(cur, inner as nat));
            }
            i += 1;
        }
        proof {
            assert(self.children@.take(i as int) =~= self.children@);
        }
        push_border(&mut out, inner);
        proof {
            assert(out@ =~= border_line(w) + child_lines(self.children@, w) + border_line(w));
        }
        out
    }
}

/// The sum of the heights of any prefix of `children` is 0.
proof fn lemma_take_height_zero(children: Seq<Element>, i: int)
    requires
        0 <= i <= children.len(),
    ensures
        total_child_height(children.take(i)) == 0,
    decreases i,
{
    if i > 0 {
        lemma_take_height_zero(children, i - 1);
        assert(children.take(i).drop_last() =~= children.take(i - 1));
        lemma_height_zero(children.take(i).last());
    }
}

/// Appends a horizontal border of inner width `inner` to `out`.
fn push_border(out: &mut String, inner: usize)
    ensures
        final(out)@ == old(out)@ + border_line(inner as nat),
{
    proof {
        reveal_strlit("+");
        reveal_strlit("-");
        assert("+"@ =~= seq!['+']);
    }
    out.append("+");
    append_repeated(out, "-", inner);
    out.append("+");
    proof {
        assert(out@ =~= old(out)@ + border_line(inner as nat));
    }
}

impl Element {
    /// The bounding box of this element.
    pub fn dimensions(&self) -> (d: Dimensions)
        requires
            elem_width(*self) <= usize::MAX,
        ensures
            d.width == elem_width(*self),
            d.height == elem_height(*self),
        decreases *self,
    {
        match self {
            Element::Text(t) => t.dimensions(),
            Element::Heading(h) => h.dimensions(),
            Element::Container(c) => c.dimensions(),
        }
    }

    /// Renders this element to a string.
    pub fn render(&self) -> (out: String)
        requires
            elem_width(*self) <= usize::MAX,
        ensures
            out@ == rendering(*self),
        decreases *self,
    {
        match self {
            Element::Text(t) => t.render(),
            Element::Heading(h) => h.render(),
            Element::Container(c) => c.render(),
        }
    }
}

/// Rendering reads the element tree and nothing else: two renderings of the
/// same unmutated tree are identical.
pub proof fn lemma_render_idempotent(e: Element, first: Seq<char>, second: Seq<char>)
    requires
        first == rendering(e),
        second == rendering(e),
    ensures
        first == second,
{
}

} // verus!
