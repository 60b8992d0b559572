use crate::cipai::CiPai;
use crate::meter_parser::{meter_of, parse_meter, MeterParseError};
use crate::text::{str_chars, string_of_chars, string_views, text_is, trim_range, trimmed};
use crate::tone::{meter_view, MeterTone};
use vstd::prelude::*;

verus! {

/// One node of an XML document, as far as the templates are read from
/// it. The nodes of a document stand in document order, and the `size`
/// nodes from a node on are the node and its descendants.
pub struct XmlNode {
    /// Whether the node is an element.
    pub element: bool,
    /// Whether the node is a text node.
    pub text_node: bool,
    /// The local name of an element; empty for any other node.
    pub name: String,
    /// The text of a text node; of an element the text of its first
    /// child, where that is a text node.
    pub text: Option<String>,
    /// The value of the attribute that was asked for, where the node
    /// has it.
    pub attribute: Option<String>,
    pub size: usize,
}

/// What a node holds.
pub struct XmlNodeView {
    pub element: bool,
    pub text_node: bool,
    pub name: Seq<char>,
    pub text: Option<Seq<char>>,
    pub attribute: Option<Seq<char>>,
    pub size: nat,
}

/// The view of an optional string.
pub open spec fn opt_view(s: Option<String>) -> Option<Seq<char>> {
    match s {
        Some(t) => Some(t@),
        None => None,
    }
}

impl View for XmlNode {
    type V = XmlNodeView;

    open spec fn view(&self) -> XmlNodeView {
        XmlNodeView {
            element: self.element,
            text_node: self.text_node,
            name: self.name@,
            text: opt_view(self.text),
            attribute: opt_view(self.attribute),
            size: self.size as nat,
        }
    }
}

/// The views of the nodes.
pub open spec fn nodes_view(nodes: Seq<XmlNode>) -> Seq<XmlNodeView> {
    Seq::new(nodes.len(), |i: int| nodes[i]@)
}

/// The nodes of the XML document `content` in document order, each
/// with its value of `attribute`; `None` where `content` is no XML
/// document.
pub uninterp spec fn xml_nodes_of(content: Seq<char>, attribute: Seq<char>) -> Option<
    Seq<XmlNodeView>,
>;

/// `roxmltree::Document::parse`, and of each node of
/// `Document::descendants`, in its order, what `Node::is_element`,
/// `is_text`, `tag_name().name()`, `text`, `attribute` and the count of
/// `descendants` give. Believed: the outcome depends on the two
/// arguments alone; nothing is claimed of the text of a refusal.
#[verifier::external_body]
pub(crate) fn xml_nodes(content: &str, attribute: &str) -> (r: Result<Vec<XmlNode>, String>)
    ensures
        match r {
            Ok(nodes) => xml_nodes_of(content@, attribute@) == Some(nodes_view(nodes@)),
            Err(_) => xml_nodes_of(content@, attribute@) is None,
        },
{
    let doc = roxmltree::Document::parse(content).map_err(|e| e.to_string())?;
    Ok(doc.descendants().map(|n| XmlNode {
        element: n.is_element(),
        text_node: n.is_text(),
        name: n.tag_name().name().to_string(),
        text: n.text().map(|t| t.to_string()),
        attribute: n.attribute(attribute).map(|t| t.to_string()),
        size: n.descendants().count(),
    }).collect())
}

/// What a template holds.
pub struct CiPaiView {
    pub names: Seq<Seq<char>>,
    pub variant: Option<Seq<char>>,
    pub description: Option<Seq<char>>,
    pub meter: Seq<Seq<MeterTone>>,
}

/// The view of a template.
pub open spec fn cipai_view(c: CiPai) -> CiPaiView {
    CiPaiView {
        names: string_views(c.names@),
        variant: opt_view(c.variant),
        description: opt_view(c.description),
        meter: meter_view(c.meter@),
    }
}

/// The views of the templates.
pub open spec fn cipais_view(v: Seq<CiPai>) -> Seq<CiPaiView> {
    Seq::new(v.len(), |i: int| cipai_view(v[i]))
}

/// Whether the node is an element of the given local name.
pub open spec fn is_tag(n: XmlNodeView, name: Seq<char>) -> bool {
    n.element && n.name == name
}

/// Where the descendants of node `i` end.
pub open spec fn subtree_end(nodes: Seq<XmlNodeView>, i: int) -> int {
    if i + nodes[i].size <= nodes.len() {
        i + nodes[i].size
    } else {
        nodes.len() as int
    }
}

/// The text of a node, empty where it has none.
pub open spec fn text_or_empty(n: XmlNodeView) -> Seq<char> {
    match n.text {
        Some(t) => t,
        None => Seq::empty(),
    }
}

/// The names of a template: the texts of the name elements among the
/// nodes `from` to `to - 1`.
pub open spec fn names_in(nodes: Seq<XmlNodeView>, from: int, to: int) -> Seq<Seq<char>>
    decreases to - from,
{
    if to <= from {
        Seq::empty()
    } else {
        names_in(nodes, from, to - 1) + (if is_tag(nodes[to - 1], "名称"@) {
            seq![text_or_empty(nodes[to - 1])]
        } else {
            Seq::empty()
        })
    }
}

/// Where the first element of the given name stands among the nodes
/// `from` to `to - 1`, or `to`.
pub open spec fn first_tag(nodes: Seq<XmlNodeView>, name: Seq<char>, from: int, to: int) -> int
    decreases to - from,
{
    if to <= from {
        to
    } else if is_tag(nodes[from], name) {
        from
    } else {
        first_tag(nodes, name, from + 1, to)
    }
}

/// The texts of the text nodes among the nodes `from` to `to - 1`,
/// joined.
pub open spec fn joined_text(nodes: Seq<XmlNodeView>, from: int, to: int) -> Seq<char>
    decreases to - from,
{
    if to <= from {
        Seq::empty()
    } else {
        joined_text(nodes, from, to - 1) + (if nodes[to - 1].text_node {
            text_or_empty(nodes[to - 1])
        } else {
            Seq::empty()
        })
    }
}

/// The description of a template: the trimmed text of its first
/// description element, where it has one.
pub open spec fn description_in(nodes: Seq<XmlNodeView>, from: int, to: int) -> Option<Seq<char>> {
    let at = first_tag(nodes, "说明"@, from, to);
    if at < to {
        Some(trimmed(joined_text(nodes, at, subtree_end(nodes, at))))
    } else {
        None
    }
}

/// Why the variants of a template could not be read.
#[derive(Clone, Copy, PartialEq, Eq, Structural, Debug)]
pub enum VariantError {
    /// The meter element at this node has no text.
    MissingMeter(usize),
    /// The meter element at this node holds this unexpected character.
    BadMeter(usize, char),
}

/// The variant that the meter element at node `at` gives.
pub open spec fn variant_at(
    nodes: Seq<XmlNodeView>,
    names: Seq<Seq<char>>,
    description: Option<Seq<char>>,
    at: int,
) -> Result<CiPaiView, VariantError> {
    match nodes[at].text {
        None => Err(VariantError::MissingMeter(at as usize)),
        Some(text) => match meter_of(text) {
            Err(c) => Err(VariantError::BadMeter(at as usize, c)),
            Ok(meter) => Ok(
                CiPaiView { names, variant: nodes[at].attribute, description, meter },
            ),
        },
    }
}

/// The variants of a template: one for each meter element among the
/// nodes `from` to `to - 1`, or the first fault.
pub open spec fn variants_in(
    nodes: Seq<XmlNodeView>,
    names: Seq<Seq<char>>,
    description: Option<Seq<char>>,
    from: int,
    to: int,
) -> Result<Seq<CiPaiView>, VariantError>
    decreases to - from,
{
    if to <= from {
        Ok(Seq::empty())
    } else {
        match variants_in(nodes, names, description, from, to - 1) {
            Err(e) => Err(e),
            Ok(before) => if is_tag(nodes[to - 1], "格律"@) {
                match variant_at(nodes, names, description, to - 1) {
                    Err(e) => Err(e),
                    Ok(v) => Ok(before.push(v)),
                }
            } else {
                Ok(before)
            },
        }
    }
}

/// The variants of the template element at node `i`.
pub open spec fn template_at(nodes: Seq<XmlNodeView>, i: int) -> Result<Seq<CiPaiView>, VariantError> {
    let to = subtree_end(nodes, i);
    variants_in(nodes, names_in(nodes, i, to), description_in(nodes, i, to), i, to)
}

/// The templates of the template elements among the first `upto`
/// nodes. A template element with a faulty variant gives none.
pub open spec fn templates_upto(nodes: Seq<XmlNodeView>, upto: int) -> Seq<CiPaiView>
    decreases upto,
{
    if upto <= 0 {
        Seq::empty()
    } else {
        templates_upto(nodes, upto - 1) + (if is_tag(nodes[upto - 1], "词牌"@) {
            match template_at(nodes, upto - 1) {
                Ok(variants) => variants,
                Err(_) => Seq::empty(),
            }
        } else {
            Seq::empty()
        })
    }
}

/// The templates of a document.
pub open spec fn templates_of(nodes: Seq<XmlNodeView>) -> Seq<CiPaiView> {
    templates_upto(nodes, nodes.len() as int)
}

fn node_is(n: &XmlNode, name: &str) -> (b: bool)
    ensures
        b == is_tag(n@, name@),
{
    n.element && text_is(&n.name, name)
}

fn end_of(nodes: &Vec<XmlNode>, i: usize) -> (r: usize)
    requires
        i < nodes@.len(),
    ensures
        r == subtree_end(nodes_view(nodes@), i as int),
        i <= r <= nodes@.len(),
{
    let size = nodes[i].size;
    if size <= nodes.len() - i {
        i + size
    } else {
        nodes.len()
    }
}

fn copy_opt(s: &Option<String>) -> (r: Option<String>)
    ensures
        opt_view(r) == opt_view(*s),
{
    match s {
        Some(t) => Some(t.clone()),
        None => None,
    }
}

fn copy_names(names: &Vec<String>) -> (r: Vec<String>)
    ensures
        string_views(r@) == string_views(names@),
{
    let mut out: Vec<String> = Vec::new();
    let mut i: usize = 0;
    while i < names.len()
        invariant
            i <= names.len(),
            out@.len() == i,
            forall|j: int| 0 <= j < i ==> (#[trigger] out@[j])@ == names@[j]@,
        decreases names.len() - i,
    {
        out.push(names[i].clone());
        i += 1;
    }
    assert(string_views(out@) =~= string_views(names@));
    out
}

fn collect_names(nodes: &Vec<XmlNode>, from: usize, to: usize) -> (r: Vec<String>)
    requires
        from <= to <= nodes@.len(),
    ensures
        string_views(r@) == names_in(nodes_view(nodes@), from as int, to as int),
{
    let ghost views = nodes_view(nodes@);
    let mut out: Vec<String> = Vec::new();
    let mut i: usize = from;
    assert(string_views(out@) =~= names_in(views, from as int, from as int));
    while i < to
        invariant
            from <= i <= to <= nodes@.len(),
            views == nodes_view(nodes@),
            string_views(out@) == names_in(views, from as int, i as int),
        decreases to - i,
    {
        let node = &nodes[i];
        assert(views[i as int] == node@);
        let ghost before = string_views(out@);
        if node_is(node, "名称") {
            let name = match &node.text {
                Some(t) => t.clone(),
                None => String::new(),
            };
            assert(name@ == text_or_empty(node@));
            out.push(name);
            assert(string_views(out@) =~= before + seq![text_or_empty(node@)]);
        } else {
            assert(before + Seq::<Seq<char>>::empty() =~= before);
        }
        i += 1;
    }
    out
}

fn find_tag(nodes: &Vec<XmlNode>, name: &str, from: usize, to: usize) -> (r: usize)
    requires
        from <= to <= nodes@.len(),
    ensures
        r == first_tag(nodes_view(nodes@), name@, from as int, to as int),
        from <= r <= to,
{
    let ghost views = nodes_view(nodes@);
    let mut i: usize = from;
    while i < to
        invariant
            from <= i <= to <= nodes@.len(),
            views == nodes_view(nodes@),
            first_tag(views, name@, from as int, to as int) == first_tag(
                views,
                name@,
                i as int,
                to as int,
            ),
        decreases to - i,
    {
        assert(views[i as int] == nodes@[i as int]@);
        if node_is(&nodes[i], name) {
            return i;
        }
        i += 1;
    }
    i
}

fn join_text(nodes: &Vec<XmlNode>, from: usize, to: usize) -> (r: Vec<char>)
    requires
        from <= to <= nodes@.len(),
    ensures
        r@ == joined_text(nodes_view(nodes@), from as int, to as int),
{
    let ghost views = nodes_view(nodes@);
    let mut out: Vec<char> = Vec::new();
    let mut i: usize = from;
    while i < to
        invariant
            from <= i <= to <= nodes@.len(),
            views == nodes_view(nodes@),
            out@ == joined_text(views, from as int, i as int),
        decreases to - i,
    {
        let node = &nodes[i];
        assert(views[i as int] == node@);
        let ghost before = out@;
        if node.text_node {
            match &node.text {
                None => {
                    assert(before + Seq::<char>::empty() =~= before);
                },
                Some(t) => {
                    let cs = str_chars(t.as_str());
                    let mut j: usize = 0;
                    while j < cs.len()
                        invariant
                            j <= cs.len(),
                            out@ == before + cs@.take(j as int),
                        decreases cs.len() - j,
                    {
                        out.push(cs[j]);
                        j += 1;
                        assert(out@ =~= before + cs@.take(j as int));
                    }
                    assert(cs@.take(cs.len() as int) =~= cs@);
                },
            }
        } else {
            assert(before + Seq::<char>::empty() =~= before);
        }
        i += 1;
    }
    out
}

fn describe(nodes: &Vec<XmlNode>, from: usize, to: usize) -> (r: Option<String>)
    requires
        from <= to <= nodes@.len(),
    ensures
        opt_view(r) == description_in(nodes_view(nodes@), from as int, to as int),
{
    let at = find_tag(nodes, "说明", from, to);
    if at < to {
        let end = end_of(nodes, at);
        let text = join_text(nodes, at, end);
        assert(text@.subrange(0, text@.len() as int) =~= text@);
        let bare = trim_range(&text, 0, text.len());
        Some(string_of_chars(&bare))
    } else {
        None
    }
}

fn read_variants(
    nodes: &Vec<XmlNode>,
    names: &Vec<String>,
    description: &Option<String>,
    from: usize,
    to: usize,
) -> (r: Result<Vec<CiPai>, VariantError>)
    requires
        from <= to <= nodes@.len(),
    ensures
        match variants_in(
            nodes_view(nodes@),
            string_views(names@),
            opt_view(*description),
            from as int,
            to as int,
        ) {
            Ok(variants) => r is Ok && cipais_view(r->Ok_0@) == variants,
            Err(e) => r == Err::<Vec<CiPai>, VariantError>(e),
        },
{
    let ghost views = nodes_view(nodes@);
    let ghost names_v = string_views(names@);
    let ghost desc_v = opt_view(*description);
    let mut out: Vec<CiPai> = Vec::new();
    let mut i: usize = from;
    assert(cipais_view(out@) =~= Seq::<CiPaiView>::empty());
    while i < to
        invariant
            from <= i <= to <= nodes@.len(),
            views == nodes_view(nodes@),
            names_v == string_views(names@),
            desc_v == opt_view(*description),
            variants_in(views, names_v, desc_v, from as int, i as int) == Ok::<
                Seq<CiPaiView>,
                VariantError,
            >(cipais_view(out@)),
        decreases to - i,
    {
        let node = &nodes[i];
        assert(views[i as int] == node@);
        if node_is(node, "格律") {
            let ghost next = variant_at(views, names_v, desc_v, i as int);
            proof {
                if next is Err {
                    lemma_variants_error_stays(views, names_v, desc_v, from as int, i + 1, to as int);
                }
            }
            let text = match &node.text {
                None => {
                    return Err(VariantError::MissingMeter(i));
                },
                Some(t) => t,
            };
            let meter = match parse_meter(text.as_str()) {
                Err(MeterParseError::UnexpectedGlyph(c)) => {
                    return Err(VariantError::BadMeter(i, c));
                },
                Ok(m) => m,
            };
            let cipai = CiPai {
                names: copy_names(names),
                variant: copy_opt(&node.attribute),
                description: copy_opt(description),
                meter,
            };
            let ghost before = cipais_view(out@);
            assert(cipai_view(cipai) == next->Ok_0);
            out.push(cipai);
            assert(cipais_view(out@) =~= before.push(next->Ok_0));
        }
        i += 1;
    }
    Ok(out)
}

/// A fault among the first meter elements is the fault of the template.
pub proof fn lemma_variants_error_stays(
    nodes: Seq<XmlNodeView>,
    names: Seq<Seq<char>>,
    description: Option<Seq<char>>,
    from: int,
    a: int,
    b: int,
)
    requires
        a <= b,
        variants_in(nodes, names, description, from, a) is Err,
    ensures
        variants_in(nodes, names, description, from, b) == variants_in(
            nodes,
            names,
            description,
            from,
            a,
        ),
    decreases b - a,
{
    if a < b {
        lemma_variants_error_stays(nodes, names, description, from, a, b - 1);
    }
}

/// The templates of a document, given its nodes: each template element
/// gives one template for each of its meter elements, all with the
/// names and the description of the template element. A template
/// element one of whose meters is missing or faulty gives none.
pub fn cipais_from_nodes(nodes: &Vec<XmlNode>) -> (r: Vec<CiPai>)
    ensures
        cipais_view(r@) == templates_of(nodes_view(nodes@)),
{
    let ghost views = nodes_view(nodes@);
    let mut out: Vec<CiPai> = Vec::new();
    let mut i: usize = 0;
    assert(cipais_view(out@) =~= Seq::<CiPaiView>::empty());
    while i < nodes.len()
        invariant
            i <= nodes@.len(),
            views == nodes_view(nodes@),
            cipais_view(out@) == templates_upto(views, i as int),
        decreases nodes.len() - i,
    {
        assert(views[i as int] == nodes@[i as int]@);
        let ghost before = cipais_view(out@);
        if node_is(&nodes[i], "词牌") {
            let end = end_of(nodes, i);
            let names = collect_names(nodes, i, end);
            let description = describe(nodes, i, end);
            match read_variants(nodes, &names, &description, i, end) {
                Err(_) => {
                    assert(before + Seq::<CiPaiView>::empty() =~= before);
                },
                Ok(variants) => {
                    let mut variants = variants;
                    let ghost added = cipais_view(variants@);
                    out.append(&mut variants);
                    assert(cipais_view(out@) =~= before + added);
                },
            }
        } else {
            assert(before + Seq::<CiPaiView>::empty() =~= before);
        }
        i += 1;
    }
    out
}

/// Why a document of templates was refused.
pub struct XmlError {
    /// What the XML reader said.
    pub message: String,
}

/// Reads the templates of an XML document. A document that is no XML
/// is refused; the templates of any other are those that
/// `cipais_from_nodes` finds among its nodes.
pub fn parse_cipai(content: &str) -> (r: Result<Vec<CiPai>, XmlError>)
    ensures
        match xml_nodes_of(content@, "说明"@) {
            Some(nodes) => r is Ok && cipais_view(r->Ok_0@) == templates_of(nodes),
            None => r is Err,
        },
{
    match xml_nodes(content, "说明") {
        Err(message) => Err(XmlError { message }),
        Ok(nodes) => Ok(cipais_from_nodes(&nodes)),
    }
}

} // verus!
