use vstd::prelude::*;

verus! {

/// Why a document could not be tokenized.
#[derive(Debug, Clone, Copy, PartialEq, Eq)]
pub enum ParseError {
    /// The line grammar itself was refused by the regular-expression engine.
    Pattern,
    /// A matched line carries a level that is not a decimal number that fits
    /// the level type.
    Level,
}

/// One record of a document.
///
/// A freshly tokenized record has no children. Once the tree is built,
/// `children` lists the records nested directly under this one, as positions
/// in the document's record list, in document order.
#[derive(Debug, Clone, PartialEq, Eq)]
pub struct Node {
    pub data: String,
    pub tag: String,
    pub pointer: String,
    pub level: i32,
    pub children: Vec<usize>,
}

/// The mathematical content of a [`Node`].
pub struct NodeView {
    pub data: Seq<char>,
    pub tag: Seq<char>,
    pub pointer: Seq<char>,
    pub level: int,
    pub children: Seq<int>,
}

impl View for Node {
    type V = NodeView;

    open spec fn view(&self) -> NodeView {
        NodeView {
            data: self.data@,
            tag: self.tag@,
            pointer: self.pointer@,
            level: self.level as int,
            children: self.children@.map_values(|c: usize| c as int),
        }
    }
}

impl DeepView for Node {
    type V = NodeView;

    open spec fn deep_view(&self) -> NodeView {
        self@
    }
}

impl Node {
    /// A record without children.
    pub fn new(level: i32, tag: &str, data: &str, pointer: &str) -> (node: Node)
        ensures
            node@ == (NodeView {
                data: data@,
                tag: tag@,
                pointer: pointer@,
                level: level as int,
                children: Seq::empty(),
            }),
    {
        let node = Node {
            level,
            tag: tag.to_owned(),
            data: data.to_owned(),
            pointer: pointer.to_owned(),
            children: Vec::new(),
        };
        assert(node@.children =~= Seq::<int>::empty());
        node
    }
}

} // verus!
