//! A small HTML fragment tree built from tokenizer output, with the queries
//! the dictionary adapters make on it.
use vstd::prelude::*;
use crate::text::{push_char, push_str, str_eq, chars_of, str_lt, str_less, lemma_str_lt_total, lemma_str_lt_transitive, lemma_str_lt_irreflexive};

verus! {

#[derive(Debug, PartialEq, Eq)]
pub enum HtmlNode {
    Element(HtmlElement),
    Text(String),
}

/// An element with its attributes, one per name in name order (as
/// `attribute_map` makes them), and its children.
#[derive(Debug, PartialEq, Eq)]
pub struct HtmlElement {
    pub name: String,
    pub attrs: Vec<(String, String)>,
    pub children: Vec<HtmlNode>,
}

/// A token of the HTML tokenizer.
#[derive(Debug, PartialEq, Eq)]
pub enum SimpleToken {
    Start { name: String, attrs: Vec<(String, String)>, self_closing: bool },
    End(String),
    Text(String),
}

pub ghost enum NodeView {
    Element(ElementView),
    Text(Seq<char>),
}

pub ghost struct ElementView {
    pub name: Seq<char>,
    pub attrs: Seq<(Seq<char>, Seq<char>)>,
    pub children: Seq<NodeView>,
}

pub open spec fn attrs_view(attrs: Seq<(String, String)>) -> Seq<(Seq<char>, Seq<char>)> {
    attrs.map_values(|a: (String, String)| (a.0@, a.1@))
}

/// The mathematical value of an element.
pub open spec fn element_view(e: HtmlElement) -> ElementView
    decreases e,
{
    ElementView { name: e.name@, attrs: attrs_view(e.attrs@), children: nodes_view(e.children@) }
}

/// The mathematical values of nodes.
pub open spec fn nodes_view(ns: Seq<HtmlNode>) -> Seq<NodeView>
    decreases ns,
{
    if ns.len() == 0 {
        seq![]
    } else {
        seq![node_view(ns[0])] + nodes_view(ns.drop_first())
    }
}

pub open spec fn node_view(n: HtmlNode) -> NodeView
    decreases n,
{
    match n {
        HtmlNode::Element(e) => NodeView::Element(element_view(e)),
        HtmlNode::Text(t) => NodeView::Text(t@),
    }
}

pub proof fn lemma_nodes_view_len(ns: Seq<HtmlNode>)
    ensures
        nodes_view(ns).len() == ns.len(),
    decreases ns.len(),
{
    if ns.len() > 0 {
        lemma_nodes_view_len(ns.drop_first());
    }
}

pub proof fn lemma_nodes_view_index(ns: Seq<HtmlNode>, i: int)
    requires
        0 <= i < ns.len(),
    ensures
        nodes_view(ns)[i] == node_view(ns[i]),
        nodes_view(ns).len() == ns.len(),
    decreases ns.len(),
{
    lemma_nodes_view_len(ns);
    if i > 0 {
        lemma_nodes_view_index(ns.drop_first(), i - 1);
    }
}

proof fn lemma_nodes_view_push(ns: Seq<HtmlNode>, n: HtmlNode)
    ensures
        nodes_view(ns.push(n)) == nodes_view(ns).push(node_view(n)),
    decreases ns.len(),
{
    if ns.len() == 0 {
        assert(ns.push(n).drop_first() =~= Seq::<HtmlNode>::empty());
        assert(nodes_view(Seq::<HtmlNode>::empty()) == Seq::<NodeView>::empty());
        assert(nodes_view(ns.push(n)) =~= seq![node_view(n)]);
    } else {
        lemma_nodes_view_push(ns.drop_first(), n);
        assert(ns.push(n).drop_first() =~= ns.drop_first().push(n));
        assert(nodes_view(ns.push(n)) =~= nodes_view(ns).push(node_view(n)));
    }
}

proof fn lemma_nodes_view_update_last(ns: Seq<HtmlNode>, n: HtmlNode)
    requires
        ns.len() > 0,
    ensures
        nodes_view(ns.update(ns.len() - 1, n)) == nodes_view(ns).update(ns.len() - 1, node_view(n)),
{
    lemma_nodes_view_push(ns.drop_last(), n);
    lemma_nodes_view_push(ns.drop_last(), ns.last());
    assert(ns.update(ns.len() - 1, n) =~= ns.drop_last().push(n));
    assert(ns =~= ns.drop_last().push(ns.last()));
    lemma_nodes_view_len(ns.drop_last());
    assert(nodes_view(ns).update(ns.len() - 1, node_view(n)) =~= nodes_view(ns.drop_last()).push(node_view(n)));
}

/// The value of the last attribute named `name`.
pub open spec fn attr_value(attrs: Seq<(Seq<char>, Seq<char>)>, name: Seq<char>) -> Option<Seq<char>>
    decreases attrs.len(),
{
    if attrs.len() == 0 {
        None
    } else if attrs.last().0 == name {
        Some(attrs.last().1)
    } else {
        attr_value(attrs.drop_last(), name)
    }
}

/// ASCII whitespace as `split_ascii_whitespace` splits on it.
pub open spec fn is_ascii_ws(c: char) -> bool {
    c == ' ' || c == '\t' || c == '\n' || c == '\x0C' || c == '\r'
}

/// Scanning left to right: the finished words and the word still open.
pub open spec fn words_scan(s: Seq<char>) -> (Seq<Seq<char>>, Seq<char>)
    decreases s.len(),
{
    if s.len() == 0 {
        (seq![], seq![])
    } else {
        let (done, current) = words_scan(s.drop_last());
        if is_ascii_ws(s.last()) {
            if current.len() > 0 { (done.push(current), seq![]) } else { (done, current) }
        } else {
            (done, current.push(s.last()))
        }
    }
}

/// The words of `s` between ASCII whitespace (`split_ascii_whitespace`).
pub open spec fn ascii_words(s: Seq<char>) -> Seq<Seq<char>> {
    let (done, current) = words_scan(s);
    if current.len() > 0 { done.push(current) } else { done }
}

/// The element's `class` attribute names `class` among its words.
pub open spec fn spec_has_class(e: ElementView, class: Seq<char>) -> bool {
    match attr_value(e.attrs, seq!['c', 'l', 'a', 's', 's']) {
        Some(v) => ascii_words(v).contains(class),
        None => false,
    }
}

pub open spec fn excluded_by(e: ElementView, excluded: Seq<Seq<char>>) -> bool {
    exists|k: int| 0 <= k < excluded.len() && spec_has_class(e, #[trigger] excluded[k])
}

pub open spec fn is_text_block(name: Seq<char>) -> bool {
    name == "p"@ || name == "div"@ || name == "section"@ || name == "li"@ || name == "dd"@
}

pub open spec fn ends_with_newline(s: Seq<char>) -> bool {
    s.len() > 0 && s.last() == '\n'
}

/// The visible text of nodes appended to `out`: text as it is, a line break
/// for `br`, a line break after each text block, excluded elements skipped.
pub open spec fn collect_text(nodes: Seq<NodeView>, out: Seq<char>, excluded: Seq<Seq<char>>) -> Seq<char>
    decreases nodes,
{
    if nodes.len() == 0 {
        out
    } else {
        let next = match nodes[0] {
            NodeView::Text(t) => out + t,
            NodeView::Element(e) => if excluded_by(e, excluded) {
                out
            } else {
                let before = if e.name == "br"@ && !ends_with_newline(out) { out.push('\n') } else { out };
                let inner = collect_text(e.children, before, excluded);
                if is_text_block(e.name) && !ends_with_newline(inner) { inner.push('\n') } else { inner }
            },
        };
        collect_text(nodes.drop_first(), next, excluded)
    }
}

/// The first element in document order, the element itself first, whose class names `class`.
pub open spec fn find_by_class(e: ElementView, class: Seq<char>) -> Option<ElementView>
    decreases e,
{
    if spec_has_class(e, class) { Some(e) } else { find_by_class_in(e.children, class) }
}

pub open spec fn find_by_class_in(nodes: Seq<NodeView>, class: Seq<char>) -> Option<ElementView>
    decreases nodes,
{
    if nodes.len() == 0 {
        None
    } else {
        match nodes[0] {
            NodeView::Element(c) => match find_by_class(c, class) {
                Some(x) => Some(x),
                None => find_by_class_in(nodes.drop_first(), class),
            },
            NodeView::Text(_) => find_by_class_in(nodes.drop_first(), class),
        }
    }
}

/// All elements in document order, the element itself first, that satisfy `pick`.
pub open spec fn select(e: ElementView, pick: spec_fn(ElementView) -> bool) -> Seq<ElementView>
    decreases e,
{
    (if pick(e) { seq![e] } else { seq![] }) + select_in(e.children, pick)
}

pub open spec fn select_in(nodes: Seq<NodeView>, pick: spec_fn(ElementView) -> bool) -> Seq<ElementView>
    decreases nodes,
{
    if nodes.len() == 0 {
        seq![]
    } else {
        match nodes[0] {
            NodeView::Element(c) => select(c, pick) + select_in(nodes.drop_first(), pick),
            NodeView::Text(_) => select_in(nodes.drop_first(), pick),
        }
    }
}

/// Every element below `e`, in document order.
pub open spec fn descendants(e: ElementView) -> Seq<ElementView> {
    select_in(e.children, |x: ElementView| true)
}

/// `e` and the elements below it named `name`, in document order.
pub open spec fn by_name(e: ElementView, name: Seq<char>) -> Seq<ElementView> {
    select(e, |x: ElementView| x.name == name)
}

/// `e` and the elements below it classed `class`, in document order.
pub open spec fn by_class(e: ElementView, class: Seq<char>) -> Seq<ElementView> {
    select(e, |x: ElementView| spec_has_class(x, class))
}

pub open spec fn refs_view(v: Seq<&HtmlElement>) -> Seq<ElementView> {
    v.map_values(|r: &HtmlElement| element_view(*r))
}

fn last_attr<'a>(attrs: &'a Vec<(String, String)>, name: &str) -> (r: Option<&'a str>)
    ensures
        match r {
            Some(v) => attr_value(attrs_view(attrs@), name@) == Some(v@),
            None => attr_value(attrs_view(attrs@), name@) is None,
        },
{
    let ghost av = attrs_view(attrs@);
    let mut i = attrs.len();
    assert(av.take(i as int) == av);
    while i > 0
        invariant
            i <= attrs@.len(),
            av == attrs_view(attrs@),
            attr_value(av, name@) == attr_value(av.take(i as int), name@),
        decreases i,
    {
        let pair = &attrs[i - 1];
        assert(av.take(i as int).last() == (pair.0@, pair.1@));
        assert(av.take(i as int).drop_last() == av.take(i - 1));
        if str_eq(pair.0.as_str(), name) {
            return Some(pair.1.as_str());
        }
        i -= 1;
    }
    assert(av.take(0) =~= Seq::<(Seq<char>, Seq<char>)>::empty());
    None
}

fn is_ascii_ws_exec(c: char) -> (b: bool)
    ensures
        b == is_ascii_ws(c),
{
    c == ' ' || c == '\t' || c == '\n' || c == '\x0C' || c == '\r'
}

pub proof fn lemma_push_contains_pub(words: Seq<Seq<char>>, x: Seq<char>, w: Seq<char>)
    ensures
        words.push(x).contains(w) == (words.contains(w) || x == w),
{
    lemma_push_contains(words, x, w);
}

proof fn lemma_push_contains(words: Seq<Seq<char>>, x: Seq<char>, w: Seq<char>)
    ensures
        words.push(x).contains(w) == (words.contains(w) || x == w),
{
    if words.push(x).contains(w) {
        let k = choose|k: int| 0 <= k < words.len() + 1 && words.push(x)[k] == w;
        if k < words.len() {
            assert(words[k] == w);
        }
    }
    if words.contains(w) {
        let k = choose|k: int| 0 <= k < words.len() && words[k] == w;
        assert(words.push(x)[k] == w);
    }
    if x == w {
        assert(words.push(x)[words.len() as int] == w);
    }
}

/// Whether `word` is one of the ASCII-whitespace separated words of `value`.
fn has_word(value: &str, word: &str) -> (b: bool)
    ensures
        b == ascii_words(value@).contains(word@),
{
    let v = chars_of(value);
    let w = chars_of(word);
    let ghost mut words: Seq<Seq<char>> = seq![];
    let mut current: Vec<char> = Vec::new();
    let mut found = false;
    for i in 0..v.len()
        invariant
            (words, current@) == words_scan(v@.take(i as int)),
            w@ == word@,
            found == words.contains(w@),
    {
        assert(v@.take(i + 1).drop_last() == v@.take(i as int));
        if is_ascii_ws_exec(v[i]) {
            if current.len() > 0 {
                let same = crate::dictionary::lookup_state::chars_equal_pub(&current, &w);
                proof {
                    lemma_push_contains(words, current@, w@);
                    words = words.push(current@);
                }
                found = found || same;
                current = Vec::new();
            }
        } else {
            current.push(v[i]);
        }
    }
    assert(v@.take(v.len() as int) == v@);
    if current.len() > 0 {
        let same = crate::dictionary::lookup_state::chars_equal_pub(&current, &w);
        proof {
            lemma_push_contains(words, current@, w@);
        }
        found || same
    } else {
        found
    }
}

impl HtmlElement {
    /// The value of the attribute.
    pub fn attr(&self, name: &str) -> (r: Option<&str>)
        ensures
            match r {
                Some(v) => attr_value(element_view(*self).attrs, name@) == Some(v@),
                None => attr_value(element_view(*self).attrs, name@) is None,
            },
    {
        last_attr(&self.attrs, name)
    }

    /// Whether the element's class list names `class`.
    pub fn has_class(&self, class: &str) -> (b: bool)
        ensures
            b == spec_has_class(element_view(*self), class@),
    {
        let class_name: Vec<char> = vec!['c', 'l', 'a', 's', 's'];
        let key = crate::text::string_from_chars(&class_name);
        assert(key@ =~= seq!['c', 'l', 'a', 's', 's']);
        match last_attr(&self.attrs, key.as_str()) {
            Some(value) => has_word(value, class),
            None => false,
        }
    }

    /// The visible text of the element's children.
    pub fn text(&self) -> (r: String)
        ensures
            r@ == collect_text(element_view(*self).children, seq![], seq![]),
    {
        let mut output = String::new();
        let excluded: Vec<&str> = Vec::new();
        collect_nodes_text(self.children.as_slice(), &mut output, excluded.as_slice());
        assert(excluded@.map_values(|s: &str| s@) =~= Seq::<Seq<char>>::empty());
        output
    }

    /// The visible text of the element's children, skipping elements with any of the classes.
    pub fn text_excluding_classes(&self, excluded: &[&str]) -> (r: String)
        ensures
            r@ == collect_text(element_view(*self).children, seq![], excluded@.map_values(|s: &str| s@)),
    {
        let mut output = String::new();
        collect_nodes_text(self.children.as_slice(), &mut output, excluded);
        output
    }
}

fn excluded_any(e: &HtmlElement, excluded: &[&str]) -> (b: bool)
    ensures
        b == excluded_by(element_view(*e), excluded@.map_values(|s: &str| s@)),
{
    let ghost ex = excluded@.map_values(|s: &str| s@);
    for k in 0..excluded.len()
        invariant
            ex == excluded@.map_values(|s: &str| s@),
            forall|m: int| 0 <= m < k ==> !spec_has_class(element_view(*e), #[trigger] ex[m]),
    {
        if e.has_class(excluded[k]) {
            assert(ex[k as int] == excluded@[k as int]@);
            return true;
        }
    }
    false
}

fn ends_newline(s: &String) -> (b: bool)
    ensures
        b == ends_with_newline(s@),
{
    let chars = chars_of(s.as_str());
    chars.len() > 0 && chars[chars.len() - 1] == '\n'
}

fn is_text_block_exec(name: &str) -> (b: bool)
    ensures
        b == is_text_block(name@),
{
    str_eq(name, "p") || str_eq(name, "div") || str_eq(name, "section") || str_eq(name, "li") || str_eq(name, "dd")
}

pub(crate) fn collect_nodes_text(nodes: &[HtmlNode], output: &mut String, excluded: &[&str])
    ensures
        final(output)@ == collect_text(nodes_view(nodes@), old(output)@, excluded@.map_values(|s: &str| s@)),
    decreases nodes@,
{
    let ghost ex = excluded@.map_values(|s: &str| s@);
    let ghost start = output@;
    proof {
        lemma_nodes_view_len(nodes@);
        assert(nodes_view(nodes@).skip(0) == nodes_view(nodes@));
    }
    for i in 0..nodes.len()
        invariant
            ex == excluded@.map_values(|s: &str| s@),
            collect_text(nodes_view(nodes@), start, ex) == collect_text(nodes_view(nodes@).skip(i as int), output@, ex),
            nodes_view(nodes@).len() == nodes@.len(),
    {
        let ghost nv = nodes_view(nodes@);
        let ghost before = output@;
        proof {
            lemma_nodes_view_index(nodes@, i as int);
            assert(nv.skip(i as int)[0] == nv[i as int]);
            assert(nv.skip(i as int).drop_first() == nv.skip(i + 1));
        }
        match &nodes[i] {
            HtmlNode::Text(text) => {
                push_str(output, text.as_str());
            },
            HtmlNode::Element(element) => {
                if !excluded_any(element, excluded) {
                    if str_eq(element.name.as_str(), "br") && !ends_newline(output) {
                        push_char(output, '\n');
                    }
                    assert(decreases_to!(nodes@ => nodes@[i as int]));
                    collect_nodes_text(element.children.as_slice(), output, excluded);
                    if is_text_block_exec(element.name.as_str()) && !ends_newline(output) {
                        push_char(output, '\n');
                    }
                }
            },
        }
    }
}


/// What a tree query keeps.
enum Pick<'b> {
    Class(&'b str),
    Name(&'b str),
    Any,
}

spec fn pick_spec(p: Pick) -> spec_fn(ElementView) -> bool {
    match p {
        Pick::Class(c) => |x: ElementView| spec_has_class(x, c@),
        Pick::Name(n) => |x: ElementView| x.name == n@,
        Pick::Any => |x: ElementView| true,
    }
}

fn picks(e: &HtmlElement, p: &Pick) -> (b: bool)
    ensures
        b == (pick_spec(*p))(element_view(*e)),
{
    match p {
        Pick::Class(c) => e.has_class(c),
        Pick::Name(n) => str_eq(e.name.as_str(), n),
        Pick::Any => true,
    }
}

fn first_in<'a>(nodes: &'a [HtmlNode], class: &str) -> (r: Option<&'a HtmlElement>)
    ensures
        match r {
            Some(x) => find_by_class_in(nodes_view(nodes@), class@) == Some(element_view(*x)),
            None => find_by_class_in(nodes_view(nodes@), class@) is None,
        },
    decreases nodes@,
{
    let ghost nv = nodes_view(nodes@);
    proof {
        lemma_nodes_view_len(nodes@);
        assert(nv.skip(0) == nv);
    }
    for i in 0..nodes.len()
        invariant
            nv == nodes_view(nodes@),
            nv.len() == nodes@.len(),
            find_by_class_in(nv, class@) == find_by_class_in(nv.skip(i as int), class@),
    {
        proof {
            lemma_nodes_view_index(nodes@, i as int);
            assert(nv.skip(i as int)[0] == nv[i as int]);
            assert(nv.skip(i as int).drop_first() == nv.skip(i + 1));
        }
        match &nodes[i] {
            HtmlNode::Element(element) => {
                let ghost ev = element_view(*element);
                assert(nv[i as int] == NodeView::Element(ev));
                assert(ev.children == nodes_view(element.children@));
                if element.has_class(class) {
                    assert(find_by_class(ev, class@) == Some(ev));
                    return Some(element);
                }
                assert(find_by_class(ev, class@) == find_by_class_in(ev.children, class@));
                assert(decreases_to!(nodes@ => nodes@[i as int]));
                let inner = first_in(element.children.as_slice(), class);
                if inner.is_some() {
                    return inner;
                }
            },
            HtmlNode::Text(_) => {},
        }
    }
    proof {
        assert(nv.skip(nv.len() as int) =~= Seq::<NodeView>::empty());
    }
    None
}

fn select_nodes<'a>(nodes: &'a [HtmlNode], p: &Pick, output: &mut Vec<&'a HtmlElement>)
    ensures
        refs_view(final(output)@) == refs_view(old(output)@) + select_in(nodes_view(nodes@), pick_spec(*p)),
    decreases nodes@,
{
    let ghost nv = nodes_view(nodes@);
    let ghost f = pick_spec(*p);
    let ghost start = refs_view(output@);
    proof {
        lemma_nodes_view_len(nodes@);
        assert(nv.skip(0) == nv);
    }
    for i in 0..nodes.len()
        invariant
            nv == nodes_view(nodes@),
            f == pick_spec(*p),
            nv.len() == nodes@.len(),
            start + select_in(nv, f) == refs_view(output@) + select_in(nv.skip(i as int), f),
    {
        proof {
            lemma_nodes_view_index(nodes@, i as int);
            assert(nv.skip(i as int)[0] == nv[i as int]);
            assert(nv.skip(i as int).drop_first() == nv.skip(i + 1));
        }
        match &nodes[i] {
            HtmlNode::Element(element) => {
                let ghost ev = element_view(*element);
                let ghost before = refs_view(output@);
                assert(nv[i as int] == NodeView::Element(ev));
                assert(ev.children == nodes_view(element.children@));
                assert(select_in(nv.skip(i as int), f) == select(ev, f) + select_in(nv.skip(i + 1), f));
                assert(select(ev, f) == (if f(ev) { seq![ev] } else { seq![] }) + select_in(ev.children, f));
                if picks(element, p) {
                    output.push(element);
                    assert(refs_view(output@) =~= before.push(ev));
                }
                let ghost mid = refs_view(output@);
                assert(mid == before + (if f(ev) { seq![ev] } else { seq![] }));
                assert(decreases_to!(nodes@ => nodes@[i as int]));
                select_nodes(element.children.as_slice(), p, output);
                assert(refs_view(output@) + select_in(nv.skip(i + 1), f) =~= before + select_in(nv.skip(i as int), f));
            },
            HtmlNode::Text(_) => {},
        }
    }
    proof {
        assert(nv.skip(nv.len() as int) =~= Seq::<NodeView>::empty());
        assert(refs_view(output@) + Seq::<ElementView>::empty() =~= refs_view(output@));
    }
}

impl HtmlElement {
    /// The first element, this one first and then its descendants in document
    /// order, whose class list names `class`.
    pub fn first_by_class(&self, class: &str) -> (r: Option<&HtmlElement>)
        ensures
            match r {
                Some(x) => find_by_class(element_view(*self), class@) == Some(element_view(*x)),
                None => find_by_class(element_view(*self), class@) is None,
            },
    {
        if self.has_class(class) {
            return Some(self);
        }
        first_in(self.children.as_slice(), class)
    }

    /// Appends this element and its descendants whose class list names `class`, in document order.
    pub fn all_by_class<'a>(&'a self, class: &str, output: &mut Vec<&'a HtmlElement>)
        ensures
            refs_view(final(output)@) == refs_view(old(output)@) + by_class(element_view(*self), class@),
    {
        let p = Pick::Class(class);
        if picks(self, &p) {
            output.push(self);
        }
        select_nodes(self.children.as_slice(), &p, output);
        assert(pick_spec(p) == (|x: ElementView| spec_has_class(x, class@)));
    }

    /// Appends this element and its descendants named `name`, in document order.
    pub fn all_by_name<'a>(&'a self, name: &str, output: &mut Vec<&'a HtmlElement>)
        ensures
            refs_view(final(output)@) == refs_view(old(output)@) + by_name(element_view(*self), name@),
    {
        let p = Pick::Name(name);
        if picks(self, &p) {
            output.push(self);
        }
        select_nodes(self.children.as_slice(), &p, output);
        assert(pick_spec(p) == (|x: ElementView| x.name == name@));
    }

    /// Appends every descendant element (not this one), in document order.
    pub fn all_elements<'a>(&'a self, output: &mut Vec<&'a HtmlElement>)
        ensures
            refs_view(final(output)@) == refs_view(old(output)@) + descendants(element_view(*self)),
    {
        let p = Pick::Any;
        select_nodes(self.children.as_slice(), &p, output);
        assert(pick_spec(p) == (|x: ElementView| true));
    }
}


pub open spec fn push_child(e: ElementView, n: NodeView) -> ElementView {
    ElementView { name: e.name, attrs: e.attrs, children: e.children.push(n) }
}

/// Text appended to an element: merged into a trailing text child, else a new text child.
pub open spec fn append_text_view(e: ElementView, t: Seq<char>) -> ElementView {
    if e.children.len() > 0 && e.children.last() is Text {
        let prev = match e.children.last() {
            NodeView::Text(p) => p,
            NodeView::Element(_) => seq![],
        };
        ElementView {
            name: e.name,
            attrs: e.attrs,
            children: e.children.update(e.children.len() - 1, NodeView::Text(prev + t)),
        }
    } else {
        push_child(e, NodeView::Text(t))
    }
}

/// The open-element stack after the top element is closed into its parent
/// (the bottom element, the root, is never closed).
pub open spec fn close_top_view(stack: Seq<ElementView>) -> Seq<ElementView> {
    if stack.len() <= 1 {
        stack
    } else {
        let rest = stack.drop_last();
        rest.update(rest.len() - 1, push_child(rest.last(), NodeView::Element(stack.last())))
    }
}

pub open spec fn close_times(stack: Seq<ElementView>, n: nat) -> Seq<ElementView>
    decreases n,
{
    if n == 0 {
        stack
    } else {
        close_times(close_top_view(stack), (n - 1) as nat)
    }
}

/// The position of the innermost open element named `name`.
pub open spec fn last_named(stack: Seq<ElementView>, name: Seq<char>) -> Option<int>
    decreases stack.len(),
{
    if stack.len() == 0 {
        None
    } else if stack.last().name == name {
        Some(stack.len() - 1)
    } else {
        last_named(stack.drop_last(), name)
    }
}

/// Elements that never have children.
pub open spec fn is_void(name: Seq<char>) -> bool {
    name == "area"@ || name == "base"@ || name == "br"@ || name == "col"@ || name == "embed"@
        || name == "hr"@ || name == "img"@ || name == "input"@ || name == "link"@ || name == "meta"@
        || name == "param"@ || name == "source"@ || name == "track"@ || name == "wbr"@
}

pub open spec fn root_view() -> ElementView {
    ElementView { name: "root"@, attrs: seq![], children: seq![] }
}

/// One token applied to the stack of open elements.
pub open spec fn build_step(stack: Seq<ElementView>, t: SimpleToken) -> Seq<ElementView> {
    match t {
        SimpleToken::Text(x) => stack.update(stack.len() - 1, append_text_view(stack.last(), x@)),
        SimpleToken::Start { name, attrs, self_closing } => {
            let e = ElementView { name: name@, attrs: attrs_view(attrs@), children: seq![] };
            if self_closing || is_void(name@) {
                stack.update(stack.len() - 1, push_child(stack.last(), NodeView::Element(e)))
            } else {
                stack.push(e)
            }
        },
        SimpleToken::End(n) => match last_named(stack, n@) {
            Some(p) => close_times(stack, (stack.len() - p) as nat),
            None => stack,
        },
    }
}

/// The stack of open elements after the tokens, starting from the root alone.
pub open spec fn build_all(tokens: Seq<SimpleToken>) -> Seq<ElementView>
    decreases tokens.len(),
{
    if tokens.len() == 0 {
        seq![root_view()]
    } else {
        build_step(build_all(tokens.drop_last()), tokens.last())
    }
}

/// The fragment the tokens describe: every element still open at the end is closed.
pub open spec fn fragment_view(tokens: Seq<SimpleToken>) -> ElementView {
    let stack = build_all(tokens);
    close_times(stack, (stack.len() - 1) as nat)[0]
}

/// No end tag names the synthetic root.
pub open spec fn closes_no_root(tokens: Seq<SimpleToken>) -> bool {
    forall|k: int| 0 <= k < tokens.len() ==> !(#[trigger] end_named(tokens[k], "root"@))
}

pub open spec fn end_named(t: SimpleToken, name: Seq<char>) -> bool {
    match t {
        SimpleToken::End(n) => n@ == name,
        _ => false,
    }
}

pub open spec fn stack_view(s: Seq<HtmlElement>) -> Seq<ElementView> {
    s.map_values(|e: HtmlElement| element_view(e))
}

proof fn lemma_close_times_len(stack: Seq<ElementView>, n: nat)
    requires
        stack.len() >= 1,
        n < stack.len(),
    ensures
        close_times(stack, n).len() == stack.len() - n,
    decreases n,
{
    if n > 0 {
        lemma_close_times_len(close_top_view(stack), (n - 1) as nat);
    }
}

proof fn lemma_last_named_range(stack: Seq<ElementView>, name: Seq<char>)
    ensures
        match last_named(stack, name) {
            Some(p) => 0 <= p < stack.len() && stack[p].name == name,
            None => true,
        },
    decreases stack.len(),
{
    if stack.len() > 0 && stack.last().name != name {
        lemma_last_named_range(stack.drop_last(), name);
    }
}

fn is_void_element(name: &str) -> (b: bool)
    ensures
        b == is_void(name@),
{
    str_eq(name, "area") || str_eq(name, "base") || str_eq(name, "br") || str_eq(name, "col")
        || str_eq(name, "embed") || str_eq(name, "hr") || str_eq(name, "img") || str_eq(name, "input")
        || str_eq(name, "link") || str_eq(name, "meta") || str_eq(name, "param") || str_eq(name, "source")
        || str_eq(name, "track") || str_eq(name, "wbr")
}

fn push_node(parent: &mut HtmlElement, node: HtmlNode)
    ensures
        element_view(*final(parent)) == push_child(element_view(*old(parent)), node_view(node)),
{
    proof {
        lemma_nodes_view_push(parent.children@, node);
    }
    parent.children.push(node);
}

fn append_text(parent: &mut HtmlElement, text: String)
    ensures
        element_view(*final(parent)) == append_text_view(element_view(*old(parent)), text@),
{
    let ghost old_children = parent.children@;
    proof {
        lemma_nodes_view_len(old_children);
    }
    match parent.children.pop() {
        Some(HtmlNode::Text(previous)) => {
            let mut merged = previous;
            push_str(&mut merged, text.as_str());
            proof {
                assert(old_children =~= parent.children@.push(HtmlNode::Text(previous)));
                lemma_nodes_view_update_last(old_children, HtmlNode::Text(merged));
                lemma_nodes_view_index(old_children, old_children.len() - 1);
                assert(old_children.update(old_children.len() - 1, HtmlNode::Text(merged)) =~= parent.children@.push(HtmlNode::Text(merged)));
                lemma_nodes_view_push(parent.children@, HtmlNode::Text(merged));
            }
            parent.children.push(HtmlNode::Text(merged));
        },
        Some(other) => {
            proof {
                assert(old_children =~= parent.children@.push(other));
                lemma_nodes_view_index(old_children, old_children.len() - 1);
                lemma_nodes_view_push(parent.children@, other);
                lemma_nodes_view_push(old_children, HtmlNode::Text(text));
            }
            parent.children.push(other);
            parent.children.push(HtmlNode::Text(text));
        },
        None => {
            proof {
                assert(old_children =~= Seq::<HtmlNode>::empty());
                lemma_nodes_view_push(old_children, HtmlNode::Text(text));
            }
            parent.children.push(HtmlNode::Text(text));
        },
    }
}

fn close_top(stack: &mut Vec<HtmlElement>)
    requires
        old(stack).len() >= 1,
    ensures
        stack_view(final(stack)@) == close_top_view(stack_view(old(stack)@)),
        final(stack).len() == if old(stack).len() <= 1 { old(stack).len() as int } else { old(stack).len() - 1 },
{
    if stack.len() <= 1 {
        return;
    }
    let ghost sv = stack_view(stack@);
    let element = stack.pop().unwrap();
    let mut parent = stack.pop().unwrap();
    let ghost rest = stack@;
    push_node(&mut parent, HtmlNode::Element(element));
    stack.push(parent);
    proof {
        assert(sv.last() == element_view(element));
        assert(sv.drop_last().last() == element_view(old(stack)@[old(stack)@.len() - 2]));
        assert(stack_view(stack@) =~= close_top_view(sv));
    }
}

fn innermost_named(stack: &Vec<HtmlElement>, name: &str) -> (r: Option<usize>)
    ensures
        match r {
            Some(p) => last_named(stack_view(stack@), name@) == Some(p as int),
            None => last_named(stack_view(stack@), name@) is None,
        },
{
    let ghost sv = stack_view(stack@);
    let mut i = stack.len();
    assert(sv.take(i as int) == sv);
    while i > 0
        invariant
            i <= stack@.len(),
            sv == stack_view(stack@),
            last_named(sv, name@) == last_named(sv.take(i as int), name@),
        decreases i,
    {
        assert(sv.take(i as int).last() == element_view(stack@[i - 1]));
        assert(sv.take(i as int).drop_last() == sv.take(i - 1));
        if str_eq(stack[i - 1].name.as_str(), name) {
            return Some(i - 1);
        }
        i -= 1;
    }
    assert(sv.take(0) =~= Seq::<ElementView>::empty());
    None
}

proof fn lemma_close_times_succ(s: Seq<ElementView>, k: nat)
    ensures
        close_times(s, k + 1) == close_top_view(close_times(s, k)),
    decreases k,
{
    assert(close_times(s, k + 1) == close_times(close_top_view(s), k));
    if k > 0 {
        lemma_close_times_succ(close_top_view(s), (k - 1) as nat);
        assert(close_times(s, k) == close_times(close_top_view(s), (k - 1) as nat));
    } else {
        assert(close_times(close_top_view(s), 0) == close_top_view(s));
    }
}

proof fn lemma_close_top_root(s: Seq<ElementView>)
    requires
        s.len() >= 1,
        s[0].name == "root"@,
    ensures
        close_top_view(s).len() >= 1,
        close_top_view(s)[0].name == "root"@,
{
}

proof fn lemma_close_times_root(s: Seq<ElementView>, n: nat)
    requires
        s.len() >= 1,
        s[0].name == "root"@,
    ensures
        close_times(s, n).len() >= 1,
        close_times(s, n)[0].name == "root"@,
    decreases n,
{
    if n > 0 {
        lemma_close_top_root(s);
        lemma_close_times_root(close_top_view(s), (n - 1) as nat);
    }
}

proof fn lemma_build_all_root(tokens: Seq<SimpleToken>)
    ensures
        build_all(tokens).len() >= 1,
        build_all(tokens)[0].name == "root"@,
    decreases tokens.len(),
{
    if tokens.len() > 0 {
        let prev = build_all(tokens.drop_last());
        lemma_build_all_root(tokens.drop_last());
        match tokens.last() {
            SimpleToken::End(n) => {
                match last_named(prev, n@) {
                    Some(p) => lemma_close_times_root(prev, (prev.len() - p) as nat),
                    None => {},
                }
            },
            _ => {},
        }
    }
}

fn close_through(stack: &mut Vec<HtmlElement>, name: &str)
    requires
        old(stack).len() >= 1,
        stack_view(old(stack)@)[0].name == "root"@,
        name@ != "root"@,
    ensures
        stack_view(final(stack)@) == match last_named(stack_view(old(stack)@), name@) {
            Some(p) => close_times(stack_view(old(stack)@), (old(stack).len() - p) as nat),
            None => stack_view(old(stack)@),
        },
{
    let ghost sv = stack_view(stack@);
    let position = match innermost_named(stack, name) {
        Some(p) => p,
        None => {
            return;
        },
    };
    proof {
        lemma_last_named_range(sv, name@);
    }
    let ghost total = stack.len();
    while stack.len() > position
        invariant
            1 <= position < total,
            position <= stack.len() <= total,
            total == sv.len(),
            stack_view(stack@) == close_times(sv, (total - stack.len()) as nat),
        decreases stack.len(),
    {
        let ghost k = (total - stack.len()) as nat;
        close_top(stack);
        proof {
            lemma_close_times_succ(sv, k);
        }
    }
}

/// Builds the fragment tree from tokenizer output: a start tag opens an
/// element (void and self-closing ones are complete at once), text joins the
/// innermost open element, an end tag closes up to the innermost open element
/// of its name (and is ignored when none is open), and whatever is open at the
/// end is closed.
pub fn build_fragment(tokens: Vec<SimpleToken>) -> (root: HtmlElement)
    requires
        closes_no_root(tokens@),
    ensures
        element_view(root) == fragment_view(tokens@),
{
    let ghost toks = tokens@;
    let mut pending = tokens;
    let mut reversed: Vec<SimpleToken> = Vec::new();
    while pending.len() > 0
        invariant
            toks == pending@ + reversed@.reverse(),
        decreases pending.len(),
    {
        let t = pending.pop().unwrap();
        reversed.push(t);
        assert(reversed@.reverse() =~= seq![t] + reversed@.drop_last().reverse());
    }
    assert(toks =~= reversed@.reverse());
    let mut stack: Vec<HtmlElement> = Vec::new();
    let root_name = String::from_str("root");
    let root = HtmlElement { name: root_name, attrs: Vec::new(), children: Vec::new() };
    proof {
        assert(attrs_view(root.attrs@) =~= Seq::<(Seq<char>, Seq<char>)>::empty());
        assert(nodes_view(root.children@) =~= Seq::<NodeView>::empty());
    }
    stack.push(root);
    let ghost mut done: int = 0;
    proof {
        assert(toks.take(0) =~= Seq::<SimpleToken>::empty());
        assert(stack_view(stack@) =~= seq![root_view()]);
    }
    while reversed.len() > 0
        invariant
            0 <= done <= toks.len(),
            done + reversed.len() == toks.len(),
            toks.skip(done) =~= reversed@.reverse(),
            closes_no_root(toks),
            stack_view(stack@) == build_all(toks.take(done)),
            stack.len() >= 1,
        decreases reversed.len(),
    {
        let ghost rev_before = reversed@;
        let token = reversed.pop().unwrap();
        proof {
            assert(rev_before.reverse() =~= seq![token] + reversed@.reverse());
            assert(toks.skip(done + 1) =~= toks.skip(done).drop_first());
            assert(toks[done] == token) by {
                assert(toks.skip(done)[0] == token);
            }
            assert(toks.take(done + 1).drop_last() =~= toks.take(done));
            assert(toks.take(done + 1).last() == token);
            lemma_build_all_root(toks.take(done));
        }
        let ghost before = stack_view(stack@);
        match token {
            SimpleToken::Text(text) => {
                let mut top = stack.pop().unwrap();
                append_text(&mut top, text);
                stack.push(top);
                assert(stack_view(stack@) =~= before.update(before.len() - 1, append_text_view(before.last(), text@)));
            },
            SimpleToken::Start { name, attrs, self_closing } => {
                let void = self_closing || is_void_element(name.as_str());
                let element = HtmlElement { name, attrs, children: Vec::new() };
                assert(nodes_view(element.children@) =~= Seq::<NodeView>::empty());
                if void {
                    let mut top = stack.pop().unwrap();
                    push_node(&mut top, HtmlNode::Element(element));
                    stack.push(top);
                    assert(stack_view(stack@) =~= before.update(before.len() - 1, push_child(before.last(), NodeView::Element(element_view(element)))));
                } else {
                    stack.push(element);
                    assert(stack_view(stack@) =~= before.push(element_view(element)));
                }
            },
            SimpleToken::End(name) => {
                assert(!end_named(toks[done], "root"@));
                close_through(&mut stack, name.as_str());
                proof {
                    lemma_build_all_root(toks.take(done + 1));
                }
            },
        }
        proof {
            done = done + 1;
            assert(toks.skip(done) =~= reversed@.reverse());
            lemma_build_all_root(toks.take(done));
        }
    }
    assert(toks.take(done) =~= toks);
    let ghost built = stack_view(stack@);
    let ghost total = stack.len();
    while stack.len() > 1
        invariant
            1 <= stack.len() <= total,
            total == built.len(),
            stack_view(stack@) == close_times(built, (total - stack.len()) as nat),
        decreases stack.len(),
    {
        let ghost k = (total - stack.len()) as nat;
        close_top(&mut stack);
        proof {
            lemma_close_times_succ(built, k);
        }
    }
    let ghost last = stack@;
    let result = stack.pop().unwrap();
    assert(element_view(result) == stack_view(last)[0]);
    result
}

/// The text of nodes, as an element holding them shows it.
pub fn nodes_text(nodes: &[HtmlNode]) -> (r: String)
    ensures
        r@ == collect_text(nodes_view(nodes@), seq![], seq![]),
{
    let mut output = String::new();
    let excluded: Vec<&str> = Vec::new();
    collect_nodes_text(nodes, &mut output, excluded.as_slice());
    assert(excluded@.map_values(|s: &str| s@) =~= Seq::<Seq<char>>::empty());
    output
}

/// A deep copy of nodes.
pub fn clone_nodes(nodes: &[HtmlNode]) -> (r: Vec<HtmlNode>)
    ensures
        nodes_view(r@) == nodes_view(nodes@),
    decreases nodes@,
{
    let mut out: Vec<HtmlNode> = Vec::new();
    proof {
        lemma_nodes_view_len(nodes@);
    }
    for i in 0..nodes.len()
        invariant
            nodes_view(out@) == nodes_view(nodes@).take(i as int),
            nodes_view(nodes@).len() == nodes@.len(),
    {
        proof {
            lemma_nodes_view_index(nodes@, i as int);
        }
        let copy = match &nodes[i] {
            HtmlNode::Text(t) => HtmlNode::Text(t.clone()),
            HtmlNode::Element(e) => {
                assert(decreases_to!(nodes@ => nodes@[i as int]));
                let children = clone_nodes(e.children.as_slice());
                let attrs = clone_attrs(&e.attrs);
                HtmlNode::Element(HtmlElement { name: e.name.clone(), attrs, children })
            },
        };
        assert(node_view(copy) == node_view(nodes@[i as int]));
        let ghost before = out@;
        out.push(copy);
        proof {
            lemma_nodes_view_push(before, copy);
            assert(nodes_view(out@) =~= nodes_view(nodes@).take(i + 1));
        }
    }
    assert(nodes_view(nodes@).take(nodes.len() as int) =~= nodes_view(nodes@));
    out
}

/// A copy of attributes.
pub fn clone_attrs(attrs: &Vec<(String, String)>) -> (r: Vec<(String, String)>)
    ensures
        attrs_view(r@) == attrs_view(attrs@),
{
    let mut out: Vec<(String, String)> = Vec::new();
    for k in 0..attrs.len()
        invariant
            attrs_view(out@) == attrs_view(attrs@).take(k as int),
    {
        let pair = &attrs[k];
        let a = pair.0.clone();
        let b = pair.1.clone();
        assert(a@ == attrs@[k as int].0@ && b@ == attrs@[k as int].1@);
        let ghost before = out@;
        out.push((a, b));
        assert(attrs_view(out@) =~= attrs_view(before).push((a@, b@)));
        assert(attrs_view(attrs@).take(k + 1) =~= attrs_view(attrs@).take(k as int).push(attrs_view(attrs@)[k as int]));
    }
    assert(attrs_view(attrs@).take(attrs.len() as int) =~= attrs_view(attrs@));
    out
}

/// A deep copy of an element.
pub fn clone_element(e: &HtmlElement) -> (r: HtmlElement)
    ensures
        element_view(r) == element_view(*e),
{
    HtmlElement { name: e.name.clone(), attrs: clone_attrs(&e.attrs), children: clone_nodes(e.children.as_slice()) }
}

/// The value the last attribute named `name` gives, if any.
pub open spec fn last_value(attrs: Seq<(String, String)>, name: Seq<char>) -> Option<Seq<char>>
    decreases attrs.len(),
{
    if attrs.len() == 0 {
        None
    } else if attrs.last().0@ == name {
        Some(attrs.last().1@)
    } else {
        last_value(attrs.drop_last(), name)
    }
}

/// Attribute names in strictly increasing order (so each name once).
pub open spec fn attrs_sorted(v: Seq<(Seq<char>, Seq<char>)>) -> bool {
    forall|i: int, j: int| 0 <= i < j < v.len() ==> str_lt(#[trigger] v[i].0, #[trigger] v[j].0)
}

/// `v` is the map of the attributes: each name once, in order, with the
/// value its last occurrence gives.
pub open spec fn is_attribute_map(v: Seq<(Seq<char>, Seq<char>)>, attrs: Seq<(String, String)>) -> bool {
    &&& attrs_sorted(v)
    &&& forall|k: int| 0 <= k < v.len() ==> last_value(attrs, (#[trigger] v[k]).0) == Some(v[k].1)
    &&& forall|n: Seq<char>| #[trigger] last_value(attrs, n) is Some ==> exists|k: int| 0 <= k < v.len() && v[k].0 == n
}

/// The attributes of a tag as a map from name to value, ordered by name; a
/// later attribute of the same name replaces the earlier.
pub fn attribute_map(attrs: Vec<(String, String)>) -> (r: Vec<(String, String)>)
    ensures
        is_attribute_map(attrs_view(r@), attrs@),
{
    let ghost all = attrs@;
    let mut attrs = attrs;
    let n = attrs.len();
    let mut r: Vec<(String, String)> = Vec::new();
    let mut k: usize = 0;
    while k < n
        invariant
            k <= n == all.len(),
            attrs@ == all.skip(k as int),
            is_attribute_map(attrs_view(r@), all.take(k as int)),
        decreases n - k,
    {
        let ghost pre = all.take(k as int);
        let ghost post = all.take(k + 1);
        assert(post.drop_last() =~= pre);
        assert(attrs@[0] == all[k as int]);
        let (name, value) = attrs.remove(0);
        assert(attrs@ =~= all.skip(k + 1));
        assert(post.last().0@ == name@ && post.last().1@ == value@);
        let ghost v = attrs_view(r@);
        assert forall|m: Seq<char>| m != name@ implies #[trigger] last_value(post, m) == last_value(pre, m) by {}
        assert(last_value(post, name@) == Some(value@));
        let mut i: usize = 0;
        while i < r.len() && !str_eq(r[i].0.as_str(), name.as_str())
            invariant
                i <= r@.len(),
                v == attrs_view(r@),
                forall|j: int| 0 <= j < i ==> v[j].0 != name@,
            decreases r@.len() - i,
        {
            assert(v[i as int].0 == r@[i as int].0@);
            i += 1;
        }
        if i < r.len() {
            assert(v[i as int].0 == name@);
            let old_entry = r.remove(i);
            r.insert(i, (old_entry.0, value));
            let ghost w = attrs_view(r@);
            assert forall|j: int| 0 <= j < w.len() implies (#[trigger] w[j]).0 == v[j].0 && (j != i ==> w[j].1 == v[j].1) by {}
            assert(w.len() == v.len());
            assert forall|a: int, b: int| 0 <= a < b < w.len() implies str_lt(#[trigger] w[a].0, #[trigger] w[b].0) by {
                assert(str_lt(v[a].0, v[b].0));
            }
            assert forall|j: int| 0 <= j < w.len() implies last_value(post, (#[trigger] w[j]).0) == Some(w[j].1) by {
                if j != i {
                    assert(str_lt(v[j].0, v[i as int].0) || str_lt(v[i as int].0, v[j].0));
                    if w[j].0 == name@ {
                        if j < i { lemma_str_lt_irreflexive(name@); } else { lemma_str_lt_irreflexive(name@); }
                    }
                }
            }
            assert forall|m: Seq<char>| #[trigger] last_value(post, m) is Some implies exists|j: int| 0 <= j < w.len() && w[j].0 == m by {
                if m == name@ {
                    assert(w[i as int].0 == m);
                } else {
                    assert(last_value(pre, m) is Some);
                    let j = choose|j: int| 0 <= j < v.len() && v[j].0 == m;
                    assert(w[j].0 == m);
                }
            }
        } else {
            let mut p: usize = 0;
            while p < r.len() && !str_less(name.as_str(), r[p].0.as_str())
                invariant
                    p <= r@.len(),
                    v == attrs_view(r@),
                    forall|j: int| 0 <= j < p ==> !str_lt(name@, #[trigger] v[j].0),
                decreases r@.len() - p,
            {
                assert(v[p as int].0 == r@[p as int].0@);
                p += 1;
            }
            assert(p < v.len() ==> str_lt(name@, v[p as int].0));
            r.insert(p, (name, value));
            let ghost w = attrs_view(r@);
            assert(w =~= v.insert(p as int, (name@, value@)));
            assert forall|a: int, b: int| 0 <= a < b < w.len() implies str_lt(#[trigger] w[a].0, #[trigger] w[b].0) by {
                if a < p && b < p {
                    assert(w[a] == v[a] && w[b] == v[b]);
                } else if a > p && b > p {
                    assert(w[a] == v[a - 1] && w[b] == v[b - 1]);
                } else if a == p {
                    assert(w[b] == v[b - 1]);
                    if b - 1 > p {
                        assert(str_lt(v[p as int].0, v[b - 1].0));
                        lemma_str_lt_transitive(name@, v[p as int].0, v[b - 1].0);
                    }
                } else if b == p {
                    assert(w[a] == v[a]);
                    assert(v[a].0 != name@);
                    lemma_str_lt_total(v[a].0, name@);
                } else {
                    assert(w[a] == v[a] && w[b] == v[b - 1]);
                }
            }
            assert forall|j: int| 0 <= j < w.len() implies last_value(post, (#[trigger] w[j]).0) == Some(w[j].1) by {
                if j < p {
                    assert(w[j] == v[j]);
                } else if j > p {
                    assert(w[j] == v[j - 1]);
                }
            }
            assert forall|m: Seq<char>| #[trigger] last_value(post, m) is Some implies exists|j: int| 0 <= j < w.len() && w[j].0 == m by {
                if m == name@ {
                    assert(w[p as int].0 == m);
                } else {
                    assert(last_value(pre, m) is Some);
                    let j = choose|j: int| 0 <= j < v.len() && v[j].0 == m;
                    if j < p { assert(w[j].0 == m); } else { assert(w[j + 1].0 == m); }
                }
            }
        }
        k += 1;
    }
    assert(all.take(n as int) =~= all);
    r
}

} // verus!
