//! The syntax-tree model the matcher works on.
//!
//! A parser (an external collaborator) turns source text into this shape:
//! every node carries its grammar kind (a small integer and its display
//! name), whether it is a named grammar production or punctuation/trivia,
//! whether it is comment-like, its source text, and its children. A parsed
//! document also records the regions where another language is embedded,
//! each tagged with the embedded language's name.

use vstd::prelude::*;

verus! {

/// One node of a parsed syntax tree.
pub struct Node {
    pub kind_id: u16,
    pub kind: String,
    pub named: bool,
    pub comment_like: bool,
    pub text: String,
    pub children: Vec<Node>,
}

/// Structural equality of two nodes: the same kind, flags and text, and
/// structurally equal children.
pub open spec fn node_eq(a: Node, b: Node) -> bool
    decreases a,
{
    &&& a.kind_id == b.kind_id
    &&& a.kind@ == b.kind@
    &&& a.named == b.named
    &&& a.comment_like == b.comment_like
    &&& a.text@ == b.text@
    &&& nodes_eq(a.children@, b.children@)
}

/// Structural equality of two child lists, element by element.
pub open spec fn nodes_eq(xs: Seq<Node>, ys: Seq<Node>) -> bool
    decreases xs,
{
    &&& xs.len() == ys.len()
    &&& (xs.len() == 0 || (node_eq(xs.last(), ys.last()) && nodes_eq(xs.drop_last(), ys.drop_last())))
}

impl Node {
    /// The kind identifier assigned by the grammar.
    pub fn kind_id(&self) -> (k: u16)
        ensures
            k == self.kind_id,
    {
        self.kind_id
    }

    /// The display name of the node's kind.
    pub fn kind(&self) -> (k: &String)
        ensures
            k == &self.kind,
    {
        &self.kind
    }

    /// Whether the node is a meaningful grammar production rather than
    /// punctuation or trivia.
    pub fn is_named(&self) -> (b: bool)
        ensures
            b == self.named,
    {
        self.named
    }

    /// Whether the node is a comment or acts like one.
    pub fn is_comment_like(&self) -> (b: bool)
        ensures
            b == self.comment_like,
    {
        self.comment_like
    }

    /// The source text the node spans.
    pub fn text(&self) -> (t: &String)
        ensures
            t == &self.text,
    {
        &self.text
    }

    /// The `i`-th child, if there is one.
    pub fn child(&self, i: usize) -> (c: Option<&Node>)
        ensures
            i < self.children@.len() ==> c == Some(&self.children@[i as int]),
            i >= self.children@.len() ==> c is None,
    {
        if i < self.children.len() {
            Some(&self.children[i])
        } else {
            None
        }
    }

    /// A structurally equal copy of the node.
    pub fn deep_clone(&self) -> (r: Node)
        ensures
            node_eq(r, *self),
        decreases *self,
    {
        let mut children: Vec<Node> = Vec::new();
        let mut i: usize = 0;
        while i < self.children.len()
            invariant
                i <= self.children@.len(),
                nodes_eq(children@, self.children@.take(i as int)),
            decreases self.children@.len() - i,
        {
            let ghost pre = children@;
            children.push(self.children[i].deep_clone());
            proof {
                assert(children@.drop_last() =~= pre);
                assert(self.children@.take(i + 1).drop_last() =~= self.children@.take(i as int));
                assert(self.children@.take(i + 1).last() == self.children@[i as int]);
                assert(nodes_eq(children@, self.children@.take(i + 1)));
            }
            i = i + 1;
        }
        proof {
            assert(self.children@.take(self.children@.len() as int) =~= self.children@);
        }
        Node {
            kind_id: self.kind_id,
            kind: self.kind.clone(),
            named: self.named,
            comment_like: self.comment_like,
            text: self.text.clone(),
            children,
        }
    }
}

/// Every node text of the tree under `n` occurs in `content`: what
/// holds of any faithfully parsed document held against its own source
/// text.
pub open spec fn texts_within(content: Seq<char>, n: Node) -> bool
    decreases n,
{
    &&& crate::text::spec_contains(content, n.text@)
    &&& forall|i: int|
        0 <= i < n.children@.len() ==> texts_within(content, #[trigger] n.children@[i])
}

/// An embedded region of a host document: the tag naming the embedded
/// language, and the region parsed as its own tree.
pub struct Injection {
    pub tag: String,
    pub root: Node,
}

/// A parsed document: its language, its root node, and the embedded
/// regions found in it.
pub struct SyntaxTree {
    pub lang: u32,
    pub root: Node,
    pub injections: Vec<Injection>,
}

/// What a language registry knows of one language: its identity, the
/// name embedded-region tags use for it, and which other languages may
/// be injected into documents of this language.
pub struct LangSpec {
    pub id: u32,
    pub name: String,
    pub injectable: Vec<u32>,
}

/// The set of languages the scanner knows.
pub struct LangRegistry {
    pub langs: Vec<LangSpec>,
}

/// The language a tag resolves to: the first registered language with
/// that name.
pub open spec fn spec_lang_of_tag(langs: Seq<LangSpec>, tag: Seq<char>) -> Option<u32>
    decreases langs.len(),
{
    if langs.len() == 0 {
        None
    } else if langs.first().name@ == tag {
        Some(langs.first().id)
    } else {
        spec_lang_of_tag(langs.drop_first(), tag)
    }
}

/// The injections of a document that resolve to a known language, in
/// document order, each paired with the language it resolves to.
pub open spec fn spec_resolved_injections(injs: Seq<Injection>, langs: Seq<LangSpec>) -> Seq<
    (u32, Injection),
>
    decreases injs.len(),
{
    if injs.len() == 0 {
        Seq::empty()
    } else {
        let rest = spec_resolved_injections(injs.drop_last(), langs);
        match spec_lang_of_tag(langs, injs.last().tag@) {
            Some(l) => rest.push((l, injs.last())),
            None => rest,
        }
    }
}

impl LangRegistry {
    /// Resolves an embedded-language tag to a language, if the registry
    /// knows a language of that name.
    pub fn lang_of_tag(&self, tag: &String) -> (r: Option<u32>)
        ensures
            r == spec_lang_of_tag(self.langs@, tag@),
    {
        let mut i: usize = 0;
        proof {
            assert(self.langs@.skip(0) =~= self.langs@);
        }
        while i < self.langs.len()
            invariant
                i <= self.langs@.len(),
                spec_lang_of_tag(self.langs@, tag@) == spec_lang_of_tag(
                    self.langs@.skip(i as int),
                    tag@,
                ),
            decreases self.langs@.len() - i,
        {
            proof {
                assert(self.langs@.skip(i as int).first() == self.langs@[i as int]);
                assert(self.langs@.skip(i as int).drop_first() =~= self.langs@.skip(i + 1));
            }
            if crate::text::str_eq(self.langs[i].name.as_str(), tag.as_str()) {
                return Some(self.langs[i].id);
            }
            i = i + 1;
        }
        None
    }

    /// The languages that may be injected into documents of `lang`,
    /// if `lang` is registered.
    pub fn injectable_langs(&self, lang: u32) -> (r: Option<&Vec<u32>>)
        ensures
            match r {
                Some(v) => spec_injectable(self.langs@, lang) == Some(v@),
                None => spec_injectable(self.langs@, lang) is None,
            },
    {
        let mut i: usize = 0;
        proof {
            assert(self.langs@.skip(0) =~= self.langs@);
        }
        while i < self.langs.len()
            invariant
                i <= self.langs@.len(),
                spec_injectable(self.langs@, lang) == spec_injectable(
                    self.langs@.skip(i as int),
                    lang,
                ),
            decreases self.langs@.len() - i,
        {
            proof {
                assert(self.langs@.skip(i as int).first() == self.langs@[i as int]);
                assert(self.langs@.skip(i as int).drop_first() =~= self.langs@.skip(i + 1));
            }
            if self.langs[i].id == lang {
                return Some(&self.langs[i].injectable);
            }
            i = i + 1;
        }
        None
    }
}

/// The injectable languages declared for `lang`: those of the first
/// registered language with that identity.
pub open spec fn spec_injectable(langs: Seq<LangSpec>, lang: u32) -> Option<Seq<u32>>
    decreases langs.len(),
{
    if langs.len() == 0 {
        None
    } else if langs.first().id == lang {
        Some(langs.first().injectable@)
    } else {
        spec_injectable(langs.drop_first(), lang)
    }
}

/// The first embedded region whose tag resolves to `l`.
pub open spec fn spec_first_inj(injs: Seq<Injection>, langs: Seq<LangSpec>, l: u32) -> Option<
    Injection,
>
    decreases injs.len(),
{
    if injs.len() == 0 {
        None
    } else if spec_lang_of_tag(langs, injs.first().tag@) == Some(l) {
        Some(injs.first())
    } else {
        spec_first_inj(injs.drop_first(), langs, l)
    }
}

/// Finds the root of the first embedded region whose tag resolves
/// to `l`.
pub fn first_inj<'a>(injs: &'a Vec<Injection>, langs: &LangRegistry, l: u32) -> (r: Option<
    &'a Node,
>)
    ensures
        match r {
            Some(n) => spec_first_inj(injs@, langs.langs@, l) is Some && *n == spec_first_inj(
                injs@,
                langs.langs@,
                l,
            )->Some_0.root,
            None => spec_first_inj(injs@, langs.langs@, l) is None,
        },
{
    let mut i: usize = 0;
    proof {
        assert(injs@.skip(0) =~= injs@);
    }
    while i < injs.len()
        invariant
            i <= injs@.len(),
            spec_first_inj(injs@, langs.langs@, l) == spec_first_inj(
                injs@.skip(i as int),
                langs.langs@,
                l,
            ),
        decreases injs@.len() - i,
    {
        proof {
            assert(injs@.skip(i as int).first() == injs@[i as int]);
            assert(injs@.skip(i as int).drop_first() =~= injs@.skip(i + 1));
        }
        match langs.lang_of_tag(&injs[i].tag) {
            Some(found) => {
                if found == l {
                    return Some(&injs[i].root);
                }
            },
            None => {},
        }
        i = i + 1;
    }
    None
}

impl SyntaxTree {
    /// Resolves the embedded regions of this document against the
    /// registry: every region whose tag names a known language yields an
    /// independent sub-document in that language; an unrecognized tag
    /// yields nothing. Best effort, never an error.
    pub fn get_injections(&self, langs: &LangRegistry) -> (r: Vec<SyntaxTree>)
        ensures
            ({
                let resolved = spec_resolved_injections(self.injections@, langs.langs@);
                &&& r@.len() == resolved.len()
                &&& forall|k: int|
                    0 <= k < resolved.len() ==> (#[trigger] r@[k]).lang == resolved[k].0 && node_eq(
                        r@[k].root,
                        resolved[k].1.root,
                    ) && r@[k].injections@.len() == 0
            }),
    {
        let mut out: Vec<SyntaxTree> = Vec::new();
        let mut i: usize = 0;
        while i < self.injections.len()
            invariant
                i <= self.injections@.len(),
                ({
                    let resolved = spec_resolved_injections(
                        self.injections@.take(i as int),
                        langs.langs@,
                    );
                    &&& out@.len() == resolved.len()
                    &&& forall|k: int|
                        0 <= k < resolved.len() ==> (#[trigger] out@[k]).lang == resolved[k].0
                            && node_eq(out@[k].root, resolved[k].1.root) && out@[k].injections@.len()
                            == 0
                }),
            decreases self.injections@.len() - i,
        {
            proof {
                assert(self.injections@.take(i + 1).drop_last() =~= self.injections@.take(i as int));
                assert(self.injections@.take(i + 1).last() == self.injections@[i as int]);
            }
            match langs.lang_of_tag(&self.injections[i].tag) {
                Some(l) => {
                    out.push(
                        SyntaxTree {
                            lang: l,
                            root: self.injections[i].root.deep_clone(),
                            injections: Vec::new(),
                        },
                    );
                },
                None => {},
            }
            i = i + 1;
        }
        proof {
            assert(self.injections@.take(self.injections@.len() as int) =~= self.injections@);
        }
        out
    }
}

} // verus!
