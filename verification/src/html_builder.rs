//! A small HTML document builder, and its renderer.
//!
//! Elements are built up by consuming setters and rendered to plain text;
//! what the renderer produces is pinned down, character for character, by
//! [`spec_render_element`].  Writing the text anywhere is the caller's
//! business.

use vstd::prelude::*;
use crate::record::views_of;

verus! {

/// The HTML element kinds the builder knows.
#[derive(Clone, Copy, PartialEq, Eq, Structural, Debug)]
pub enum HtmlElementType {
    P,
    A,
    Ul,
    Li,
    Head,
    Body,
    Br,
    Link,
    Img,
    Script,
    Title,
    Div,
}

/// One CSS class name.
#[derive(Debug)]
pub struct CssClass {
    pub name: String,
}

/// One HTML element: its kind, classes, children and optional attributes.
#[derive(Debug)]
pub struct HtmlElement {
    element_type: HtmlElementType,
    class: Vec<String>,
    sub_elements: Vec<HtmlElement>,
    src: Option<String>,
    alt: Option<String>,
    href: Option<String>,
    text: Option<String>,
    rel: Option<String>,
}

/// The view of an optional string attribute.
pub open spec fn view_opt(o: Option<String>) -> Option<Seq<char>> {
    match o {
        Some(s) => Some(s@),
        None => None,
    }
}

/// The views of a sequence of elements, in order.
pub open spec fn views_of_children(s: Seq<HtmlElement>) -> Seq<HtmlElementView>
    decreases s, 1int,
{
    if s.len() == 0 {
        Seq::empty()
    } else {
        views_of_children(s.drop_last()).push(s.last()@)
    }
}

/// Element views are the views of the elements.
pub proof fn lemma_views_of_children(s: Seq<HtmlElement>)
    ensures
        views_of_children(s).len() == s.len(),
        forall|i: int| 0 <= i < s.len() ==> views_of_children(s)[i] == (#[trigger] s[i])@,
    decreases s.len(),
{
    if s.len() == 0 {
        assert(views_of_children(s) == Seq::<HtmlElementView>::empty());
    } else {
        lemma_views_of_children(s.drop_last());
        assert(views_of_children(s) == views_of_children(s.drop_last()).push(s.last()@));
        assert(forall|i: int| 0 <= i < s.len() - 1 ==> s.drop_last()[i] == #[trigger] s[i]);
    }
}

/// The mathematical content of an [`HtmlElement`]: a finite tree.
#[verifier::ext_equal]
pub struct HtmlElementView {
    pub element_type: HtmlElementType,
    pub class: Seq<Seq<char>>,
    pub sub_elements: Seq<HtmlElementView>,
    pub src: Option<Seq<char>>,
    pub alt: Option<Seq<char>>,
    pub href: Option<Seq<char>>,
    pub text: Option<Seq<char>>,
    pub rel: Option<Seq<char>>,
}

/// An element view with nothing set: what a fresh element looks like, and
/// the base the setters' contracts build on.
pub open spec fn empty_element_view() -> HtmlElementView {
    HtmlElementView {
        element_type: HtmlElementType::Br,
        class: Seq::empty(),
        sub_elements: Seq::empty(),
        src: None,
        alt: None,
        href: None,
        text: None,
        rel: None,
    }
}

impl View for HtmlElement {
    type V = HtmlElementView;

    closed spec fn view(&self) -> HtmlElementView
        decreases *self, 2int,
    {
        HtmlElementView {
            element_type: self.element_type,
            class: Seq::new(self.class@.len(), |i: int| self.class@[i]@),
            sub_elements: views_of_children(self.sub_elements@),
            src: view_opt(self.src),
            alt: view_opt(self.alt),
            href: view_opt(self.href),
            text: view_opt(self.text),
            rel: view_opt(self.rel),
        }
    }
}

impl HtmlElement {
    /// A fresh element of the given kind, with no classes, children or
    /// attributes.
    pub fn new(element_type: HtmlElementType) -> (r: Self)
        ensures
            r@ == (HtmlElementView { element_type, ..empty_element_view() }),
    {
        let r = HtmlElement {
            element_type,
            class: Vec::new(),
            sub_elements: Vec::new(),
            src: None,
            alt: None,
            href: None,
            text: None,
            rel: None,
        };
        proof {
            let ghost target = HtmlElementView { element_type, ..empty_element_view() };
            assert(r@.class =~= target.class);
            assert(r@.sub_elements == target.sub_elements);
            assert(r@ =~= target);
        }
        r
    }

    /// Sets the `src` attribute.
    pub fn set_src(self, src: &str) -> (r: Self)
        ensures
            r@ == (HtmlElementView { src: Some(src@), ..self@ }),
    {
        let ghost v0 = self@;
        let mut e = self;
        e.src = Some(String::from_str(src));
        proof {
            assert(e@.class =~= v0.class);
            assert(e@.sub_elements == v0.sub_elements);
            assert(e@ =~= (HtmlElementView { src: Some(src@), ..v0 }));
        }
        e
    }

    /// Sets the `alt` attribute.
    pub fn set_alt(self, alt: &str) -> (r: Self)
        ensures
            r@ == (HtmlElementView { alt: Some(alt@), ..self@ }),
    {
        let ghost v0 = self@;
        let mut e = self;
        e.alt = Some(String::from_str(alt));
        proof {
            assert(e@.class =~= v0.class);
            assert(e@.sub_elements == v0.sub_elements);
            assert(e@ =~= (HtmlElementView { alt: Some(alt@), ..v0 }));
        }
        e
    }

    /// Appends one CSS class.
    pub fn add_class(self, c: &str) -> (r: Self)
        ensures
            r@ == (HtmlElementView { class: self@.class.push(c@), ..self@ }),
    {
        let ghost v0 = self@;
        let ghost cls0 = self.class@;
        let mut e = self;
        e.class.push(String::from_str(c));
        proof {
            assert(e@.class =~= v0.class.push(c@)) by {
                assert(forall|i: int| 0 <= i < cls0.len() ==> e.class@[i] == #[trigger] cls0[i]);
                assert(e.class@[cls0.len() as int]@ == c@);
            }
            assert(e@.sub_elements =~= v0.sub_elements);
            assert(e@ =~= (HtmlElementView { class: v0.class.push(c@), ..v0 }));
        }
        e
    }

    /// Appends one child element.
    pub fn add_element(self, child: HtmlElement) -> (r: Self)
        ensures
            r@ == (HtmlElementView { sub_elements: self@.sub_elements.push(child@), ..self@ }),
    {
        let ghost v0 = self@;
        let ghost c0 = child@;
        let ghost subs0 = self.sub_elements@;
        let mut e = self;
        e.sub_elements.push(child);
        proof {
            assert(e@.class =~= v0.class);
            assert(e@.sub_elements == v0.sub_elements.push(c0)) by {
                assert(e.sub_elements@.drop_last() =~= subs0);
                assert(e.sub_elements@.last() == child);
                assert(views_of_children(e.sub_elements@) == views_of_children(
                    e.sub_elements@.drop_last(),
                ).push(e.sub_elements@.last()@));
            }
            assert(e@ =~= (HtmlElementView { sub_elements: v0.sub_elements.push(c0), ..v0 }));
        }
        e
    }

    /// Sets the `rel` attribute.
    pub fn set_rel(self, rel: &str) -> (r: Self)
        ensures
            r@ == (HtmlElementView { rel: Some(rel@), ..self@ }),
    {
        let ghost v0 = self@;
        let mut e = self;
        e.rel = Some(String::from_str(rel));
        proof {
            assert(e@.class =~= v0.class);
            assert(e@.sub_elements == v0.sub_elements);
            assert(e@ =~= (HtmlElementView { rel: Some(rel@), ..v0 }));
        }
        e
    }

    /// Sets the `href` attribute.
    pub fn set_href(self, href: &str) -> (r: Self)
        ensures
            r@ == (HtmlElementView { href: Some(href@), ..self@ }),
    {
        let ghost v0 = self@;
        let mut e = self;
        e.href = Some(String::from_str(href));
        proof {
            assert(e@.class =~= v0.class);
            assert(e@.sub_elements == v0.sub_elements);
            assert(e@ =~= (HtmlElementView { href: Some(href@), ..v0 }));
        }
        e
    }

    /// Sets the element's text content.
    pub fn set_text(self, text: &str) -> (r: Self)
        ensures
            r@ == (HtmlElementView { text: Some(text@), ..self@ }),
    {
        let ghost v0 = self@;
        let mut e = self;
        e.text = Some(String::from_str(text));
        proof {
            assert(e@.class =~= v0.class);
            assert(e@.sub_elements == v0.sub_elements);
            assert(e@ =~= (HtmlElementView { text: Some(text@), ..v0 }));
        }
        e
    }
}

/// Four spaces per indentation step.
pub open spec fn spec_space_pad(n: nat) -> Seq<char>
    decreases n,
{
    if n == 0 {
        Seq::empty()
    } else {
        spec_space_pad((n - 1) as nat) + "    "@
    }
}

/// The indentation for one nesting level: four spaces per step.
pub fn space_pad(spaces: usize) -> (r: String)
    ensures
        r@ == spec_space_pad(spaces as nat),
{
    let mut s = String::new();
    let mut i: usize = 0;
    while i < spaces
        invariant
            i <= spaces,
            s@ == spec_space_pad(i as nat),
        decreases spaces - i,
    {
        s.append("    ");
        i = i + 1;
    }
    s
}

/// All class names, run together.
pub open spec fn spec_class_concat(classes: Seq<Seq<char>>) -> Seq<char>
    decreases classes.len(),
{
    if classes.len() == 0 {
        Seq::empty()
    } else {
        spec_class_concat(classes.drop_last()) + classes.last()
    }
}

/// A class attribute value: the names run together between double quotes,
/// with one trailing space when there is any name at all.
pub open spec fn spec_class_string(classes: Seq<Seq<char>>) -> Seq<char> {
    if classes.len() == 0 {
        "\""@ + "\""@
    } else {
        "\""@ + spec_class_concat(classes) + " "@ + "\""@
    }
}

/// Renders a class attribute value.
pub fn to_class_string(classes: Vec<String>) -> (r: String)
    ensures
        r@ == spec_class_string(views_of(classes@)),
{
    let ghost cs = views_of(classes@);
    let mut s = String::from_str("\"");
    proof {
        assert(cs.take(0) =~= Seq::<Seq<char>>::empty());
        assert(s@ =~= "\""@ + spec_class_concat(cs.take(0)));
    }
    let n = classes.len();
    let mut i: usize = 0;
    while i < n
        invariant
            i <= n,
            n == classes@.len(),
            cs == views_of(classes@),
            cs.len() == n,
            s@ == "\""@ + spec_class_concat(cs.take(i as int)),
        decreases n - i,
    {
        s.append(classes[i].as_str());
        proof {
            assert(cs.take(i as int + 1).drop_last() =~= cs.take(i as int));
            assert(cs.take(i as int + 1).last() == cs[i as int]);
            assert(cs[i as int] == classes@[i as int]@);
            assert(s@ =~= "\""@ + spec_class_concat(cs.take(i as int + 1)));
        }
        i = i + 1;
    }
    proof {
        assert(cs.take(n as int) =~= cs);
    }
    if n > 0 {
        s.append(" ");
    }
    s.append("\"");
    proof {
        assert(s@ =~= spec_class_string(cs));
    }
    s
}

/// An attribute value: the text between double quotes; just the two quotes
/// when it was never set.
pub open spec fn spec_property_string(o: Option<Seq<char>>) -> Seq<char> {
    match o {
        Some(p) => "\""@ + p + "\""@,
        None => "\"\""@,
    }
}

/// Renders an attribute value.
pub fn to_property_string(opt_prop: Option<String>) -> (r: String)
    ensures
        r@ == spec_property_string(view_opt(opt_prop)),
{
    match opt_prop {
        Some(p) => {
            let mut s = String::from_str("\"");
            s.append(p.as_str());
            s.append("\"");
            proof {
                assert(s@ =~= "\""@ + p@ + "\""@);
            }
            s
        },
        None => String::from_str("\"\""),
    }
}

/// An element's text content: the text itself, or nothing when never set.
pub open spec fn spec_content_string(o: Option<Seq<char>>) -> Seq<char> {
    match o {
        Some(p) => p,
        None => Seq::empty(),
    }
}

/// Renders an element's text content.
pub fn to_content_string(opt_prop: Option<String>) -> (r: String)
    ensures
        r@ == spec_content_string(view_opt(opt_prop)),
{
    match opt_prop {
        Some(p) => p,
        None => String::new(),
    }
}

/// The height of an element tree; rendering indents one step per level, so
/// the indentation passed to the renderer must leave this much headroom.
pub open spec fn spec_el_height(v: HtmlElementView) -> nat
    decreases v, 1int,
{
    1 + spec_els_height(v.sub_elements)
}

/// The largest height among a sequence of elements.
pub open spec fn spec_els_height(els: Seq<HtmlElementView>) -> nat
    decreases els, 0int,
{
    if els.len() == 0 {
        0
    } else {
        let rest = spec_els_height(els.drop_last());
        let last = spec_el_height(els.last());
        if rest >= last {
            rest
        } else {
            last
        }
    }
}

/// Every element's height is at most the sequence's.
pub proof fn lemma_el_height_bound(els: Seq<HtmlElementView>, i: int)
    requires
        0 <= i < els.len(),
    ensures
        spec_el_height(els[i]) <= spec_els_height(els),
    decreases els.len(),
{
    if i == els.len() - 1 {
    } else {
        lemma_el_height_bound(els.drop_last(), i);
        assert(els.drop_last()[i] == els[i]);
    }
}

/// What rendering one element at one indentation level emits, character for
/// character.
pub open spec fn spec_render_element(v: HtmlElementView, indent: nat) -> Seq<char>
    decreases v, 1int,
{
    let pad = spec_space_pad(indent);
    let cls = spec_class_string(v.class);
    match v.element_type {
        HtmlElementType::P => pad + "<p class="@ + cls + ">"@ + spec_content_string(v.text)
            + "</p>\n"@,
        HtmlElementType::Br => pad + "<br>\n"@,
        HtmlElementType::Ul => pad + "<ul class="@ + cls + ">\n"@ + spec_render_seq(
            v.sub_elements,
            indent + 1,
        ) + pad + "</ul>\n"@,
        HtmlElementType::Li => pad + "<li class="@ + cls + ">\n"@ + spec_render_seq(
            v.sub_elements,
            indent + 1,
        ) + pad + "</li>\n"@,
        HtmlElementType::Div => pad + "<div class="@ + cls + ">\n"@ + spec_render_seq(
            v.sub_elements,
            indent + 1,
        ) + pad + "</div>\n"@,
        HtmlElementType::A => pad + "<a class="@ + cls + " href="@ + spec_property_string(v.href)
            + ">\n"@ + spec_render_seq(v.sub_elements, indent + 1) + pad + "</a>\n"@,
        HtmlElementType::Img => pad + "<img class="@ + cls + " src="@ + spec_property_string(
            v.src,
        ) + " alt="@ + spec_property_string(v.alt) + ">\n"@,
        HtmlElementType::Head => pad + "<head class="@ + cls + ">\n"@ + spec_render_seq(
            v.sub_elements,
            indent + 1,
        ) + pad + "</head>\n"@,
        HtmlElementType::Body => pad + "<body class="@ + cls + ">\n"@ + spec_render_seq(
            v.sub_elements,
            indent + 1,
        ) + pad + "</body>\n"@,
        HtmlElementType::Link => pad + "<link rel="@ + spec_property_string(v.rel) + " href="@
            + spec_property_string(v.href) + ">\n"@,
        HtmlElementType::Script => pad + "<script src="@ + spec_property_string(v.src)
            + "></script>\n"@,
        HtmlElementType::Title => pad + "<title>"@ + spec_content_string(v.text) + "</title>\n"@,
    }
}

/// What rendering a sequence of elements emits: each in turn.
pub open spec fn spec_render_seq(elems: Seq<HtmlElementView>, indent: nat) -> Seq<char>
    decreases elems, 0int,
{
    if elems.len() == 0 {
        Seq::empty()
    } else {
        spec_render_seq(elems.drop_last(), indent) + spec_render_element(elems.last(), indent)
    }
}

/// Emits one leaf element shaped `pad<TAG class=CLS>TEXT</TAG>`: the `P`
/// and `Title` arms.
fn emit_text_leaf(
    open_text: &str,
    close_text: &str,
    pad: &String,
    class_str: &String,
    text: Option<String>,
    out: &mut String,
)
    ensures
        final(out)@ == old(out)@ + (pad@ + open_text@ + class_str@ + ">"@ + spec_content_string(
            view_opt(text),
        ) + close_text@),
{
    let ghost out0 = out@;
    out.append(pad.as_str());
    out.append(open_text);
    out.append(class_str.as_str());
    out.append(">");
    let ct = to_content_string(text);
    out.append(ct.as_str());
    out.append(close_text);
    proof {
        assert(out@ =~= out0 + (pad@ + open_text@ + class_str@ + ">"@ + spec_content_string(
            view_opt(text),
        ) + close_text@));
    }
}

/// Emits the `Img` arm: `pad<img class=CLS src=SRC alt=ALT>`.
fn emit_img(
    pad: &String,
    class_str: &String,
    src: Option<String>,
    alt: Option<String>,
    out: &mut String,
)
    ensures
        final(out)@ == old(out)@ + (pad@ + "<img class="@ + class_str@ + " src="@
            + spec_property_string(view_opt(src)) + " alt="@ + spec_property_string(view_opt(alt))
            + ">\n"@),
{
    let ghost out0 = out@;
    out.append(pad.as_str());
    out.append("<img class=");
    out.append(class_str.as_str());
    out.append(" src=");
    let ss = to_property_string(src);
    out.append(ss.as_str());
    out.append(" alt=");
    let als = to_property_string(alt);
    out.append(als.as_str());
    out.append(">\n");
    proof {
        assert(out@ =~= out0 + (pad@ + "<img class="@ + class_str@ + " src="@
            + spec_property_string(view_opt(src)) + " alt="@ + spec_property_string(view_opt(alt))
            + ">\n"@));
    }
}

/// Emits the `Link` arm: `pad<link rel=REL href=HREF>`.
fn emit_link(pad: &String, rel: Option<String>, href: Option<String>, out: &mut String)
    ensures
        final(out)@ == old(out)@ + (pad@ + "<link rel="@ + spec_property_string(view_opt(rel))
            + " href="@ + spec_property_string(view_opt(href)) + ">\n"@),
{
    let ghost out0 = out@;
    out.append(pad.as_str());
    out.append("<link rel=");
    let rs = to_property_string(rel);
    out.append(rs.as_str());
    out.append(" href=");
    let hs = to_property_string(href);
    out.append(hs.as_str());
    out.append(">\n");
    proof {
        assert(out@ =~= out0 + (pad@ + "<link rel="@ + spec_property_string(view_opt(rel))
            + " href="@ + spec_property_string(view_opt(href)) + ">\n"@));
    }
}

/// Emits the `Title` arm: `pad<title>TEXT</title>`.
fn emit_title(pad: &String, text: Option<String>, out: &mut String)
    ensures
        final(out)@ == old(out)@ + (pad@ + "<title>"@ + spec_content_string(view_opt(text))
            + "</title>\n"@),
{
    let ghost out0 = out@;
    out.append(pad.as_str());
    out.append("<title>");
    let ct = to_content_string(text);
    out.append(ct.as_str());
    out.append("</title>\n");
    proof {
        assert(out@ =~= out0 + (pad@ + "<title>"@ + spec_content_string(view_opt(text))
            + "</title>\n"@));
    }
}

/// Emits the `Script` arm: `pad<script src=SRC></script>`.
fn emit_script(pad: &String, src: Option<String>, out: &mut String)
    ensures
        final(out)@ == old(out)@ + (pad@ + "<script src="@ + spec_property_string(view_opt(src))
            + "></script>\n"@),
{
    let ghost out0 = out@;
    out.append(pad.as_str());
    out.append("<script src=");
    let ss = to_property_string(src);
    out.append(ss.as_str());
    out.append("></script>\n");
    proof {
        assert(out@ =~= out0 + (pad@ + "<script src="@ + spec_property_string(view_opt(src))
            + "></script>\n"@));
    }
}

/// Emits one container arm: `pad<TAG class=CLS>`, the children one level
/// deeper, then `pad</TAG>`: the `Ul`, `Li`, `Div`, `Head` and `Body` arms.
fn emit_container(
    open_text: &str,
    close_text: &str,
    pad: &String,
    class_str: &String,
    subs: Vec<HtmlElement>,
    indent: usize,
    out: &mut String,
)
    requires
        indent < usize::MAX,
        indent + 1 + spec_els_height(views_of_children(subs@)) <= usize::MAX,
    ensures
        final(out)@ == old(out)@ + (pad@ + open_text@ + class_str@ + ">\n"@ + spec_render_seq(
            views_of_children(subs@),
            indent as nat + 1,
        ) + pad@ + close_text@),
    decreases subs, 2int,
{
    let ghost out0 = out@;
    let ghost subs0 = subs@;
    out.append(pad.as_str());
    out.append(open_text);
    out.append(class_str.as_str());
    out.append(">\n");
    render_children(subs, indent + 1, out);
    out.append(pad.as_str());
    out.append(close_text);
    proof {
        assert(out@ =~= out0 + (pad@ + open_text@ + class_str@ + ">\n"@ + spec_render_seq(
            views_of_children(subs0),
            indent as nat + 1,
        ) + pad@ + close_text@));
    }
}

/// Emits the `A` arm: `pad<a class=CLS href=HREF>`, the children one level
/// deeper, then `pad</a>`.
fn emit_a(
    pad: &String,
    class_str: &String,
    href: Option<String>,
    subs: Vec<HtmlElement>,
    indent: usize,
    out: &mut String,
)
    requires
        indent < usize::MAX,
        indent + 1 + spec_els_height(views_of_children(subs@)) <= usize::MAX,
    ensures
        final(out)@ == old(out)@ + (pad@ + "<a class="@ + class_str@ + " href="@
            + spec_property_string(view_opt(href)) + ">\n"@ + spec_render_seq(
            views_of_children(subs@),
            indent as nat + 1,
        ) + pad@ + "</a>\n"@),
    decreases subs, 2int,
{
    let ghost out0 = out@;
    let ghost subs0 = subs@;
    out.append(pad.as_str());
    out.append("<a class=");
    out.append(class_str.as_str());
    out.append(" href=");
    let hs = to_property_string(href);
    out.append(hs.as_str());
    out.append(">\n");
    render_children(subs, indent + 1, out);
    out.append(pad.as_str());
    out.append("</a>\n");
    proof {
        assert(out@ =~= out0 + (pad@ + "<a class="@ + class_str@ + " href="@
            + spec_property_string(view_opt(href)) + ">\n"@ + spec_render_seq(
            views_of_children(subs0),
            indent as nat + 1,
        ) + pad@ + "</a>\n"@));
    }
}

impl HtmlElement {
    /// Renders this element into `out` at the given indentation level,
    /// emitting exactly [`spec_render_element`].
    #[verifier::rlimit(50)]
    pub fn render(self, indent: usize, out: &mut String)
        requires
            indent + spec_el_height(self@) <= usize::MAX,
        ensures
            final(out)@ == old(out)@ + spec_render_element(self@, indent as nat),
        decreases self, 0int,
    {
        let ghost v0 = self@;
        let ghost out0 = out@;
        let pad = space_pad(indent);
        let ghost cls0 = self.class@;
        let ghost subsE0 = self.sub_elements@;
        let ghost text0 = self.text;
        proof {
            assert(decreases_to!(self => self.sub_elements));
        }
        let HtmlElement { element_type, class, sub_elements, src, alt, href, text, rel } = self;
        let cs = to_class_string(class);
        proof {
            assert(views_of(cls0) == v0.class) by {
                assert(views_of(cls0) =~= Seq::new(cls0.len(), |i: int| cls0[i]@));
            }
            assert(cs@ == spec_class_string(v0.class));
        }
        match element_type {
            HtmlElementType::P => {
                emit_text_leaf("<p class=", "</p>\n", &pad, &cs, text, out);
            },
            HtmlElementType::Br => {
                out.append(pad.as_str());
                out.append("<br>\n");
                proof {
                    assert(out@ =~= out0 + (pad@ + "<br>\n"@));
                }
            },
            HtmlElementType::Ul => {
                emit_container("<ul class=", "</ul>\n", &pad, &cs, sub_elements, indent, out);
            },
            HtmlElementType::Li => {
                emit_container("<li class=", "</li>\n", &pad, &cs, sub_elements, indent, out);
            },
            HtmlElementType::Div => {
                emit_container("<div class=", "</div>\n", &pad, &cs, sub_elements, indent, out);
            },
            HtmlElementType::A => {
                emit_a(&pad, &cs, href, sub_elements, indent, out);
            },
            HtmlElementType::Img => {
                emit_img(&pad, &cs, src, alt, out);
            },
            HtmlElementType::Head => {
                emit_container("<head class=", "</head>\n", &pad, &cs, sub_elements, indent, out);
            },
            HtmlElementType::Body => {
                emit_container("<body class=", "</body>\n", &pad, &cs, sub_elements, indent, out);
            },
            HtmlElementType::Link => {
                emit_link(&pad, rel, href, out);
            },
            HtmlElementType::Script => {
                emit_script(&pad, src, out);
            },
            HtmlElementType::Title => {
                emit_title(&pad, text, out);
            },
        }
        proof {
            assert(out@ == out0 + spec_render_element(v0, indent as nat));
        }
    }
}

/// Renders a vector of elements in order, each at the given indentation.
#[verifier::loop_isolation(false)]
fn render_children(elems: Vec<HtmlElement>, indent: usize, out: &mut String)
    requires
        indent + spec_els_height(views_of_children(elems@)) <= usize::MAX,
    ensures
        final(out)@ == old(out)@ + spec_render_seq(views_of_children(elems@), indent as nat),
    decreases elems, 1int,
{
    let ghost elems0 = elems@;
    let ghost views0 = views_of_children(elems@);
    let ghost out0 = out@;
    proof {
        lemma_views_of_children(elems0);
        assert(elems0.skip(0) =~= elems0);
        assert(views0.take(0) =~= Seq::<HtmlElementView>::empty());
    }
    let mut rest = elems;
    while rest.len() > 0
        invariant
            rest@.len() <= elems0.len(),
            rest@ == elems0.skip(elems0.len() - rest@.len()),
            out@ == out0 + spec_render_seq(
                views0.take(elems0.len() - rest@.len()),
                indent as nat,
            ),
        decreases rest@.len(),
    {
        let ghost k = elems0.len() - rest@.len();
        let e = rest.remove(0);
        proof {
            assert(0 <= k < elems0.len());
            assert(elems0.skip(k as int)[0] == elems0[k as int]);
            assert(e == elems0[k as int]);
            assert(rest@ =~= elems0.skip(k as int + 1)) by {
                assert(forall|j: int|
                    0 <= j < rest@.len() ==> rest@[j] == #[trigger] elems0.skip(k as int)[j + 1]);
            }
            assert(e@ == views0[k as int]);
            lemma_el_height_bound(views0, k as int);
            assert(decreases_to!(elems0 => elems0[k as int]));
            assert(decreases_to!(elems => elems@));
            assert(decreases_to!(elems => e));
        }
        e.render(indent, out);
        proof {
            assert(views0.take(k as int + 1).drop_last() =~= views0.take(k as int));
            assert(views0.take(k as int + 1).last() == views0[k as int]);
            assert(out@ =~= out0 + spec_render_seq(views0.take(k as int + 1), indent as nat));
        }
    }
    proof {
        assert(views0.take(elems0.len() as int) =~= views0);
    }
}

/// A whole HTML document: the top-level elements, rendered in order behind
/// the doctype line.
pub struct HtmlDom {
    elements: Vec<HtmlElement>,
}

impl View for HtmlDom {
    type V = Seq<HtmlElementView>;

    closed spec fn view(&self) -> Seq<HtmlElementView> {
        views_of_children(self.elements@)
    }
}

/// What rendering a whole document emits.
pub open spec fn spec_render_dom(elems: Seq<HtmlElementView>) -> Seq<char> {
    "<!DOCTYPE html>\n"@ + spec_render_seq(elems, 0)
}

impl HtmlDom {
    /// An empty document.
    pub fn new() -> (r: Self)
        ensures
            r@ == Seq::<HtmlElementView>::empty(),
    {
        HtmlDom { elements: Vec::new() }
    }

    /// Appends one top-level element.
    pub fn add_element(&mut self, e: HtmlElement)
        ensures
            final(self)@ == old(self)@.push(e@),
    {
        let ghost els0 = self.elements@;
        self.elements.push(e);
        proof {
            assert(self.elements@.drop_last() =~= els0);
            assert(views_of_children(self.elements@) == views_of_children(
                self.elements@.drop_last(),
            ).push(self.elements@.last()@));
        }
    }

    /// Renders the document to text: the doctype line, then every element.
    pub fn render(self) -> (r: String)
        requires
            spec_els_height(self@) <= usize::MAX,
        ensures
            r@ == spec_render_dom(self@),
    {
        let mut out = String::from_str("<!DOCTYPE html>\n");
        let ghost v0 = self@;
        let HtmlDom { elements } = self;
        render_children(elements, 0, &mut out);
        proof {
            assert(out@ =~= spec_render_dom(v0));
        }
        out
    }
}

} // verus!
