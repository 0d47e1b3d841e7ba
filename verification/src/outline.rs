//! A tree written out as text, one node to a line, for a reader to look at.

use crate::node::Node;
use vstd::prelude::*;

verus! {

/// The line of a node: the indentation, a dash and a space, the label, and
/// a space and a star where the node has a payload; then a line feed.
pub(crate) open spec fn node_line(indent: Seq<char>, label: Seq<char>, marked: bool) -> Seq<char> {
    indent + seq!['-', ' '] + label + (if marked {
        seq![' ', '*']
    } else {
        Seq::empty()
    }) + seq!['\n']
}

/// The lines of the nodes `kids` and of the nodes below them, in order.
pub(crate) open spec fn forest_outline<Item>(kids: Seq<Node<Item>>, indent: Seq<char>) -> Seq<char>
    decreases kids, 0nat,
{
    if kids.len() == 0 {
        Seq::empty()
    } else {
        forest_outline(kids.drop_last(), indent) + kids.last().outline(indent)
    }
}

impl<Item> Node<Item> {
    /// The line of this node, then the lines of the nodes below it, each
    /// level indented by two spaces more.
    pub(crate) open spec fn outline(self, indent: Seq<char>) -> Seq<char>
        decreases self, 1nat,
    {
        node_line(indent, self.label@, self.value is Some) + forest_outline(
            self.children@,
            indent + seq![' ', ' '],
        )
    }
}

/// `String::push` of std: the string has one scalar value more, `c`, at its
/// end; what it held before stays in front.
#[verifier::external_body]
fn push_char(text: &mut String, c: char)
    ensures
        final(text)@ == old(text)@.push(c),
{
    text.push(c)
}

/// Adds the scalar values of `chars` to the end of `text`.
fn push_all(text: &mut String, chars: &Vec<char>)
    ensures
        final(text)@ == old(text)@ + chars@,
{
    let mut i: usize = 0;
    while i < chars.len()
        invariant
            i <= chars.len(),
            text@ == old(text)@ + chars@.take(i as int),
        decreases chars.len() - i,
    {
        push_char(text, chars[i]);
        i += 1;
        proof {
            assert(chars@.take(i as int) =~= chars@.take(i - 1).push(chars@[i - 1]));
            assert(text@ =~= old(text)@ + chars@.take(i as int));
        }
    }
    proof {
        assert(chars@.take(i as int) =~= chars@);
    }
}

impl<Item> Node<Item> {
    /// Adds the outline of this node and of the nodes below it to the end of
    /// `text`. `indent` is what each line of this node's level begins with;
    /// it is handed back as it came.
    pub(crate) fn write_outline(&self, indent: &mut Vec<char>, text: &mut String)
        ensures
            final(indent)@ == old(indent)@,
            final(text)@ == old(text)@ + self.outline(old(indent)@),
        decreases self,
    {
        push_all(text, indent);
        push_char(text, '-');
        push_char(text, ' ');
        push_all(text, &self.label);
        if self.value.is_some() {
            push_char(text, ' ');
            push_char(text, '*');
        }
        push_char(text, '\n');
        proof {
            assert(text@ =~= old(text)@ + node_line(
                old(indent)@,
                self.label@,
                self.value is Some,
            ));
        }
        indent.push(' ');
        indent.push(' ');
        let ghost deeper = indent@;
        let ghost kids = self.children@;
        let ghost line = text@;
        proof {
            assert(deeper =~= old(indent)@ + seq![' ', ' ']);
            assert(kids.take(0) =~= Seq::empty());
        }
        let mut i: usize = 0;
        while i < self.children.len()
            invariant
                kids == self.children@,
                i <= kids.len(),
                indent@ == deeper,
                text@ == line + forest_outline(kids.take(i as int), deeper),
            decreases kids.len() - i,
        {
            self.children[i].write_outline(indent, text);
            proof {
                let more = kids.take(i + 1);
                assert(more.drop_last() =~= kids.take(i as int));
                assert(more.last() == kids[i as int]);
                assert(text@ =~= line + forest_outline(more, deeper));
            }
            i += 1;
        }
        proof {
            assert(kids.take(i as int) =~= kids);
            assert(text@ =~= old(text)@ + self.outline(old(indent)@));
        }
        indent.pop();
        indent.pop();
        proof {
            assert(indent@ =~= old(indent)@);
        }
    }
}

} // verus!
