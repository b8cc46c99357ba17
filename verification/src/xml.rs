//! A small XML reader for the archive's two documents. The index and the
//! manifest nest elements exactly two levels below the root, so the reader
//! accepts that shape: a root element whose children ("nodes") hold leaf
//! elements with attributes and character data. Attribute values are
//! double-quoted; character references are not interpreted.

use vstd::prelude::*;
use crate::text::chars_to_string_range;

verus! {

/// The mathematical shadow of a leaf element.
pub struct LeafModel {
    pub name: Seq<char>,
    pub attrs: Seq<(Seq<char>, Seq<char>)>,
    pub text: Seq<char>,
}

/// The mathematical shadow of a child of the root.
pub struct NodeModel {
    pub name: Seq<char>,
    pub attrs: Seq<(Seq<char>, Seq<char>)>,
    pub children: Seq<LeafModel>,
}

/// The mathematical shadow of a whole document.
pub struct DocModel {
    pub name: Seq<char>,
    pub attrs: Seq<(Seq<char>, Seq<char>)>,
    pub nodes: Seq<NodeModel>,
}

/// A leaf element: a name, attributes and character data.
#[derive(Debug)]
pub struct XmlLeaf {
    pub name: String,
    pub attrs: Vec<(String, String)>,
    pub text: String,
}

/// A child of the root: a name, attributes and leaf elements.
#[derive(Debug)]
pub struct XmlNode {
    pub name: String,
    pub attrs: Vec<(String, String)>,
    pub children: Vec<XmlLeaf>,
}

/// A parsed document: the root's name, its attributes and its children.
#[derive(Debug)]
pub struct XmlDoc {
    pub name: String,
    pub attrs: Vec<(String, String)>,
    pub nodes: Vec<XmlNode>,
}

/// The shadow of an attribute list.
pub open spec fn attrs_model(attrs: Seq<(String, String)>) -> Seq<(Seq<char>, Seq<char>)> {
    attrs.map_values(|p: (String, String)| (p.0@, p.1@))
}

impl XmlLeaf {
    /// The mathematical shadow of this leaf.
    pub open spec fn model(self) -> LeafModel {
        LeafModel { name: self.name@, attrs: attrs_model(self.attrs@), text: self.text@ }
    }
}

impl XmlNode {
    /// The mathematical shadow of this node.
    pub open spec fn model(self) -> NodeModel {
        NodeModel {
            name: self.name@,
            attrs: attrs_model(self.attrs@),
            children: self.children@.map_values(|l: XmlLeaf| l.model()),
        }
    }
}

impl XmlDoc {
    /// The mathematical shadow of this document.
    pub open spec fn model(self) -> DocModel {
        DocModel {
            name: self.name@,
            attrs: attrs_model(self.attrs@),
            nodes: self.nodes@.map_values(|n: XmlNode| n.model()),
        }
    }
}

/// Whitespace between tokens.
pub open spec fn is_ws(c: char) -> bool {
    c == ' ' || c == '\t' || c == '\r' || c == '\n'
}

/// A character of an element or attribute name.
pub open spec fn is_name_char(c: char) -> bool {
    ('a' <= c && c <= 'z') || ('A' <= c && c <= 'Z') || ('0' <= c && c <= '9') || c == '_' || c
        == '-' || c == '.' || c == ':'
}

/// The first position at or after `i` that does not hold whitespace.
pub open spec fn spec_skip_ws(s: Seq<char>, i: int) -> int
    decreases s.len() - i,
{
    if 0 <= i < s.len() && is_ws(s[i]) {
        spec_skip_ws(s, i + 1)
    } else {
        i
    }
}

/// The end of the name that starts at `i`.
pub open spec fn spec_name_end(s: Seq<char>, i: int) -> int
    decreases s.len() - i,
{
    if 0 <= i < s.len() && is_name_char(s[i]) {
        spec_name_end(s, i + 1)
    } else {
        i
    }
}

/// The first position at or after `i` holding a double quote.
pub open spec fn spec_quote_end(s: Seq<char>, i: int) -> int
    decreases s.len() - i,
{
    if 0 <= i < s.len() && s[i] != '"' {
        spec_quote_end(s, i + 1)
    } else {
        i
    }
}

/// The first position at or after `i` holding `<`.
pub open spec fn spec_text_end(s: Seq<char>, i: int) -> int
    decreases s.len() - i,
{
    if 0 <= i < s.len() && s[i] != '<' {
        spec_text_end(s, i + 1)
    } else {
        i
    }
}

/// The name that starts at `i`, which must not be empty.
pub open spec fn spec_parse_name(s: Seq<char>, i: int) -> Option<(Seq<char>, int)> {
    if 0 <= i < s.len() && is_name_char(s[i]) {
        Some((s.subrange(i, spec_name_end(s, i)), spec_name_end(s, i)))
    } else {
        None
    }
}

/// The double-quoted value that starts at `i`.
pub open spec fn spec_parse_quoted(s: Seq<char>, i: int) -> Option<(Seq<char>, int)> {
    if 0 <= i < s.len() && s[i] == '"' {
        if spec_quote_end(s, i + 1) < s.len() {
            Some((s.subrange(i + 1, spec_quote_end(s, i + 1)), spec_quote_end(s, i + 1) + 1))
        } else {
            None
        }
    } else {
        None
    }
}

/// The attribute list that starts at `i`; it ends before the first
/// non-name character after the leading whitespace.
pub open spec fn spec_parse_attrs(s: Seq<char>, i: int) -> Option<
    (Seq<(Seq<char>, Seq<char>)>, int),
>
    decreases s.len() - i,
{
    let j = spec_skip_ws(s, i);
    if 0 <= j < s.len() && is_name_char(s[j]) {
        match spec_parse_name(s, j) {
            None => None,
            Some((name, a)) => {
                if a < s.len() && s[a] == '=' {
                    match spec_parse_quoted(s, a + 1) {
                        None => None,
                        Some((value, b)) => {
                            if i < b <= s.len() {
                                match spec_parse_attrs(s, b) {
                                    None => None,
                                    Some((rest, e)) => Some(
                                        (seq![(name, value)] + rest, e),
                                    ),
                                }
                            } else {
                                None
                            }
                        },
                    }
                } else {
                    None
                }
            },
        }
    } else {
        Some((Seq::empty(), j))
    }
}

/// The leaf element that starts at `i`: `<name attrs>text</name>` or
/// `<name attrs/>`.
pub open spec fn spec_parse_leaf(s: Seq<char>, i: int) -> Option<(LeafModel, int)> {
    if 0 <= i < s.len() && s[i] == '<' {
        match spec_parse_name(s, i + 1) {
            None => None,
            Some((name, a)) => match spec_parse_attrs(s, a) {
                None => None,
                Some((attrs, b)) => {
                    if b + 1 < s.len() && s[b] == '/' && s[b + 1] == '>' {
                        Some((LeafModel { name, attrs, text: Seq::empty() }, b + 2))
                    } else if b < s.len() && s[b] == '>' {
                        let t = spec_text_end(s, b + 1);
                        if t + 1 < s.len() && s[t] == '<' && s[t + 1] == '/' {
                            match spec_parse_name(s, t + 2) {
                                None => None,
                                Some((cname, e)) => {
                                    if cname == name && e < s.len() && s[e] == '>' {
                                        Some(
                                            (
                                                LeafModel {
                                                    name,
                                                    attrs,
                                                    text: s.subrange(b + 1, t),
                                                },
                                                e + 1,
                                            ),
                                        )
                                    } else {
                                        None
                                    }
                                },
                            }
                        } else {
                            None
                        }
                    } else {
                        None
                    }
                },
            },
        }
    } else {
        None
    }
}

/// The leaf elements between `i` and the closing tag of their parent.
pub open spec fn spec_parse_leaves(s: Seq<char>, i: int) -> Option<(Seq<LeafModel>, int)>
    decreases s.len() - i,
{
    let j = spec_skip_ws(s, i);
    if 0 <= j < s.len() && s[j] == '<' {
        if j + 1 < s.len() && s[j + 1] == '/' {
            Some((Seq::empty(), j))
        } else {
            match spec_parse_leaf(s, j) {
                None => None,
                Some((leaf, a)) => {
                    if i < a <= s.len() {
                        match spec_parse_leaves(s, a) {
                            None => None,
                            Some((rest, e)) => Some((seq![leaf] + rest, e)),
                        }
                    } else {
                        None
                    }
                },
            }
        }
    } else {
        None
    }
}

/// The node that starts at `i`: a named element holding leaf elements.
pub open spec fn spec_parse_node(s: Seq<char>, i: int) -> Option<(NodeModel, int)> {
    if 0 <= i < s.len() && s[i] == '<' {
        match spec_parse_name(s, i + 1) {
            None => None,
            Some((name, a)) => match spec_parse_attrs(s, a) {
                None => None,
                Some((attrs, b)) => {
                    if b + 1 < s.len() && s[b] == '/' && s[b + 1] == '>' {
                        Some((NodeModel { name, attrs, children: Seq::empty() }, b + 2))
                    } else if b < s.len() && s[b] == '>' {
                        match spec_parse_leaves(s, b + 1) {
                            None => None,
                            Some((kids, t)) => {
                                if t + 1 < s.len() && s[t] == '<' && s[t + 1] == '/' {
                                    match spec_parse_name(s, t + 2) {
                                        None => None,
                                        Some((cname, e)) => {
                                            if cname == name && e < s.len() && s[e] == '>' {
                                                Some(
                                                    (
                                                        NodeModel { name, attrs, children: kids },
                                                        e + 1,
                                                    ),
                                                )
                                            } else {
                                                None
                                            }
                                        },
                                    }
                                } else {
                                    None
                                }
                            },
                        }
                    } else {
                        None
                    }
                },
            },
        }
    } else {
        None
    }
}

/// The nodes between `i` and the root's closing tag.
pub open spec fn spec_parse_nodes(s: Seq<char>, i: int) -> Option<(Seq<NodeModel>, int)>
    decreases s.len() - i,
{
    let j = spec_skip_ws(s, i);
    if 0 <= j < s.len() && s[j] == '<' {
        if j + 1 < s.len() && s[j + 1] == '/' {
            Some((Seq::empty(), j))
        } else {
            match spec_parse_node(s, j) {
                None => None,
                Some((node, a)) => {
                    if i < a <= s.len() {
                        match spec_parse_nodes(s, a) {
                            None => None,
                            Some((rest, e)) => Some((seq![node] + rest, e)),
                        }
                    } else {
                        None
                    }
                },
            }
        }
    } else {
        None
    }
}

/// The whole document: one root element holding nodes, and nothing but
/// whitespace around it.
pub open spec fn spec_parse_doc(s: Seq<char>) -> Option<DocModel> {
    let i = spec_skip_ws(s, 0);
    if 0 <= i < s.len() && s[i] == '<' {
        match spec_parse_name(s, i + 1) {
            None => None,
            Some((name, a)) => match spec_parse_attrs(s, a) {
                None => None,
                Some((attrs, b)) => {
                    if b + 1 < s.len() && s[b] == '/' && s[b + 1] == '>' {
                        if spec_skip_ws(s, b + 2) == s.len() {
                            Some(DocModel { name, attrs, nodes: Seq::empty() })
                        } else {
                            None
                        }
                    } else if b < s.len() && s[b] == '>' {
                        match spec_parse_nodes(s, b + 1) {
                            None => None,
                            Some((nodes, t)) => {
                                if t + 1 < s.len() && s[t] == '<' && s[t + 1] == '/' {
                                    match spec_parse_name(s, t + 2) {
                                        None => None,
                                        Some((cname, e)) => {
                                            if cname == name && e < s.len() && s[e] == '>'
                                                && spec_skip_ws(s, e + 1) == s.len() {
                                                Some(DocModel { name, attrs, nodes })
                                            } else {
                                                None
                                            }
                                        },
                                    }
                                } else {
                                    None
                                }
                            },
                        }
                    } else {
                        None
                    }
                },
            },
        }
    } else {
        None
    }
}

fn ws_char(c: char) -> (r: bool)
    ensures
        r == is_ws(c),
{
    c == ' ' || c == '\t' || c == '\r' || c == '\n'
}

fn name_char(c: char) -> (r: bool)
    ensures
        r == is_name_char(c),
{
    ('a' <= c && c <= 'z') || ('A' <= c && c <= 'Z') || ('0' <= c && c <= '9') || c == '_' || c
        == '-' || c == '.' || c == ':'
}

fn skip_ws(s: &Vec<char>, i: usize) -> (j: usize)
    requires
        i <= s@.len(),
    ensures
        j as int == spec_skip_ws(s@, i as int),
        i <= j <= s@.len(),
        j == s@.len() || !is_ws(s@[j as int]),
    decreases s@.len() - i,
{
    if i < s.len() && ws_char(s[i]) {
        skip_ws(s, i + 1)
    } else {
        i
    }
}

fn name_end(s: &Vec<char>, i: usize) -> (j: usize)
    requires
        i <= s@.len(),
    ensures
        j as int == spec_name_end(s@, i as int),
        i <= j <= s@.len(),
        j == s@.len() || !is_name_char(s@[j as int]),
    decreases s@.len() - i,
{
    if i < s.len() && name_char(s[i]) {
        name_end(s, i + 1)
    } else {
        i
    }
}

fn quote_end(s: &Vec<char>, i: usize) -> (j: usize)
    requires
        i <= s@.len(),
    ensures
        j as int == spec_quote_end(s@, i as int),
        i <= j <= s@.len(),
        j == s@.len() || s@[j as int] == '"',
    decreases s@.len() - i,
{
    if i < s.len() && s[i] != '"' {
        quote_end(s, i + 1)
    } else {
        i
    }
}

fn text_end(s: &Vec<char>, i: usize) -> (j: usize)
    requires
        i <= s@.len(),
    ensures
        j as int == spec_text_end(s@, i as int),
        i <= j <= s@.len(),
        j == s@.len() || s@[j as int] == '<',
    decreases s@.len() - i,
{
    if i < s.len() && s[i] != '<' {
        text_end(s, i + 1)
    } else {
        i
    }
}

fn parse_name(s: &Vec<char>, i: usize) -> (r: Option<(String, usize)>)
    requires
        i <= s@.len(),
    ensures
        match (r, spec_parse_name(s@, i as int)) {
            (Some((name, j)), Some((sn, sj))) => name@ == sn && j as int == sj && i <= j
                <= s@.len(),
            (None, None) => true,
            _ => false,
        },
{
    if i < s.len() && name_char(s[i]) {
        let e = name_end(s, i);
        Some((chars_to_string_range(s, i, e), e))
    } else {
        None
    }
}

fn parse_quoted(s: &Vec<char>, i: usize) -> (r: Option<(String, usize)>)
    requires
        i <= s@.len(),
    ensures
        match (r, spec_parse_quoted(s@, i as int)) {
            (Some((value, j)), Some((sv, sj))) => value@ == sv && j as int == sj && i < j
                <= s@.len(),
            (None, None) => true,
            _ => false,
        },
{
    if i < s.len() && s[i] == '"' {
        let e = quote_end(s, i + 1);
        if e < s.len() {
            Some((chars_to_string_range(s, i + 1, e), e + 1))
        } else {
            None
        }
    } else {
        None
    }
}

fn parse_attrs(s: &Vec<char>, i: usize) -> (r: Option<(Vec<(String, String)>, usize)>)
    requires
        i <= s@.len(),
    ensures
        match (r, spec_parse_attrs(s@, i as int)) {
            (Some((attrs, j)), Some((sa, sj))) => attrs_model(attrs@) == sa && j as int == sj && i
                <= j <= s@.len(),
            (None, None) => true,
            _ => false,
        },
    decreases s@.len() - i,
{
    let j = skip_ws(s, i);
    if j < s.len() && name_char(s[j]) {
        let (name, a) = match parse_name(s, j) {
            Some(x) => x,
            None => {
                return None;
            },
        };
        if a < s.len() && s[a] == '=' {
            let (value, b) = match parse_quoted(s, a + 1) {
                Some(x) => x,
                None => {
                    return None;
                },
            };
            if i < b && b <= s.len() {
                match parse_attrs(s, b) {
                    None => None,
                    Some((rest, e)) => {
                        let ghost rest0 = rest@;
                        let mut rest = rest;
                        rest.insert(0, (name, value));
                        proof {
                            assert(rest@ == rest0.insert(0, (name, value)));
                            assert(attrs_model(rest@) =~= seq![(name@, value@)] + attrs_model(
                                rest0,
                            ));
                        }
                        Some((rest, e))
                    },
                }
            } else {
                None
            }
        } else {
            None
        }
    } else {
        Some((Vec::new(), j))
    }
}

fn parse_leaf(s: &Vec<char>, i: usize) -> (r: Option<(XmlLeaf, usize)>)
    requires
        i <= s@.len(),
    ensures
        match (r, spec_parse_leaf(s@, i as int)) {
            (Some((leaf, j)), Some((sl, sj))) => leaf.model() == sl && j as int == sj && i < j
                <= s@.len(),
            (None, None) => true,
            _ => false,
        },
{
    if !(i < s.len() && s[i] == '<') {
        return None;
    }
    let (name, a) = match parse_name(s, i + 1) {
        Some(x) => x,
        None => {
            return None;
        },
    };
    let (attrs, b) = match parse_attrs(s, a) {
        Some(x) => x,
        None => {
            return None;
        },
    };
    if b < s.len() && s[b] == '/' {
        if b + 1 < s.len() && s[b + 1] == '>' {
            return Some((XmlLeaf { name, attrs, text: String::new() }, b + 2));
        }
        return None;
    }
    if !(b < s.len() && s[b] == '>') {
        return None;
    }
    let t = text_end(s, b + 1);
    if !(t < s.len()) {
        return None;
    }
    if !(t + 1 < s.len() && s[t + 1] == '/') {
        return None;
    }
    let (cname, e) = match parse_name(s, t + 2) {
        Some(x) => x,
        None => {
            return None;
        },
    };
    if cname == name && e < s.len() && s[e] == '>' {
        let text = chars_to_string_range(s, b + 1, t);
        Some((XmlLeaf { name, attrs, text }, e + 1))
    } else {
        None
    }
}

fn parse_leaves(s: &Vec<char>, i: usize) -> (r: Option<(Vec<XmlLeaf>, usize)>)
    requires
        i <= s@.len(),
    ensures
        match (r, spec_parse_leaves(s@, i as int)) {
            (Some((kids, j)), Some((sk, sj))) => kids@.map_values(|l: XmlLeaf| l.model()) == sk
                && j as int == sj && i <= j <= s@.len(),
            (None, None) => true,
            _ => false,
        },
    decreases s@.len() - i,
{
    let j = skip_ws(s, i);
    if !(j < s.len() && s[j] == '<') {
        return None;
    }
    if j + 1 < s.len() && s[j + 1] == '/' {
        proof {
            assert(Seq::<XmlLeaf>::empty().map_values(|l: XmlLeaf| l.model())
                =~= Seq::<LeafModel>::empty());
        }
        return Some((Vec::new(), j));
    }
    let (leaf, a) = match parse_leaf(s, j) {
        Some(x) => x,
        None => {
            return None;
        },
    };
    if i < a && a <= s.len() {
        match parse_leaves(s, a) {
            None => None,
            Some((rest, e)) => {
                let ghost rest0 = rest@;
                let mut rest = rest;
                rest.insert(0, leaf);
                proof {
                    assert(rest@ == rest0.insert(0, leaf));
                    assert(rest@.map_values(|l: XmlLeaf| l.model()) =~= seq![leaf.model()]
                        + rest0.map_values(|l: XmlLeaf| l.model()));
                }
                Some((rest, e))
            },
        }
    } else {
        None
    }
}

fn parse_node(s: &Vec<char>, i: usize) -> (r: Option<(XmlNode, usize)>)
    requires
        i <= s@.len(),
    ensures
        match (r, spec_parse_node(s@, i as int)) {
            (Some((node, j)), Some((sn, sj))) => node.model() == sn && j as int == sj && i < j
                <= s@.len(),
            (None, None) => true,
            _ => false,
        },
{
    if !(i < s.len() && s[i] == '<') {
        return None;
    }
    let (name, a) = match parse_name(s, i + 1) {
        Some(x) => x,
        None => {
            return None;
        },
    };
    let (attrs, b) = match parse_attrs(s, a) {
        Some(x) => x,
        None => {
            return None;
        },
    };
    if b < s.len() && s[b] == '/' {
        if b + 1 < s.len() && s[b + 1] == '>' {
            proof {
                assert(Seq::<XmlLeaf>::empty().map_values(|l: XmlLeaf| l.model())
                    =~= Seq::<LeafModel>::empty());
            }
            return Some((XmlNode { name, attrs, children: Vec::new() }, b + 2));
        }
        return None;
    }
    if !(b < s.len() && s[b] == '>') {
        return None;
    }
    let (kids, t) = match parse_leaves(s, b + 1) {
        Some(x) => x,
        None => {
            return None;
        },
    };
    if !(t < s.len()) {
        return None;
    }
    if !(t + 1 < s.len() && s[t] == '<' && s[t + 1] == '/') {
        return None;
    }
    let (cname, e) = match parse_name(s, t + 2) {
        Some(x) => x,
        None => {
            return None;
        },
    };
    if cname == name && e < s.len() && s[e] == '>' {
        Some((XmlNode { name, attrs, children: kids }, e + 1))
    } else {
        None
    }
}

fn parse_nodes(s: &Vec<char>, i: usize) -> (r: Option<(Vec<XmlNode>, usize)>)
    requires
        i <= s@.len(),
    ensures
        match (r, spec_parse_nodes(s@, i as int)) {
            (Some((nodes, j)), Some((sn, sj))) => nodes@.map_values(|n: XmlNode| n.model()) == sn
                && j as int == sj && i <= j <= s@.len(),
            (None, None) => true,
            _ => false,
        },
    decreases s@.len() - i,
{
    let j = skip_ws(s, i);
    if !(j < s.len() && s[j] == '<') {
        return None;
    }
    if j + 1 < s.len() && s[j + 1] == '/' {
        proof {
            assert(Seq::<XmlNode>::empty().map_values(|n: XmlNode| n.model())
                =~= Seq::<NodeModel>::empty());
        }
        return Some((Vec::new(), j));
    }
    let (node, a) = match parse_node(s, j) {
        Some(x) => x,
        None => {
            return None;
        },
    };
    if i < a && a <= s.len() {
        match parse_nodes(s, a) {
            None => None,
            Some((rest, e)) => {
                let ghost rest0 = rest@;
                let mut rest = rest;
                rest.insert(0, node);
                proof {
                    assert(rest@ == rest0.insert(0, node));
                    assert(rest@.map_values(|n: XmlNode| n.model()) =~= seq![node.model()]
                        + rest0.map_values(|n: XmlNode| n.model()));
                }
                Some((rest, e))
            },
        }
    } else {
        None
    }
}

/// Parse a whole document: one root element holding the nodes, and nothing
/// but whitespace around it.
pub fn parse_doc(s: &Vec<char>) -> (r: Option<XmlDoc>)
    ensures
        match (r, spec_parse_doc(s@)) {
            (Some(doc), Some(sd)) => doc.model() == sd,
            (None, None) => true,
            _ => false,
        },
{
    let i = skip_ws(s, 0);
    if !(i < s.len() && s[i] == '<') {
        return None;
    }
    let (name, a) = match parse_name(s, i + 1) {
        Some(x) => x,
        None => {
            return None;
        },
    };
    let (attrs, b) = match parse_attrs(s, a) {
        Some(x) => x,
        None => {
            return None;
        },
    };
    if b < s.len() && s[b] == '/' {
        if b + 1 < s.len() && s[b + 1] == '>' {
            if skip_ws(s, b + 2) == s.len() {
                proof {
                    assert(Seq::<XmlNode>::empty().map_values(|n: XmlNode| n.model())
                        =~= Seq::<NodeModel>::empty());
                }
                return Some(XmlDoc { name, attrs, nodes: Vec::new() });
            }
            return None;
        }
        return None;
    }
    if !(b < s.len() && s[b] == '>') {
        return None;
    }
    let (nodes, t) = match parse_nodes(s, b + 1) {
        Some(x) => x,
        None => {
            return None;
        },
    };
    if !(t < s.len()) {
        return None;
    }
    if !(t + 1 < s.len() && s[t] == '<' && s[t + 1] == '/') {
        return None;
    }
    let (cname, e) = match parse_name(s, t + 2) {
        Some(x) => x,
        None => {
            return None;
        },
    };
    if cname == name && e < s.len() && s[e] == '>' && skip_ws(s, e + 1) == s.len() {
        Some(XmlDoc { name, attrs, nodes })
    } else {
        None
    }
}

} // verus!
