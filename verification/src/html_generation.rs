//! Building the per-directory HTML index page.
//!
//! One page is produced for each visited directory: a head that links the
//! stylesheet and script, a list of subdirectory entries (each showing its
//! cover photo) and a list of image entries.  The page is returned as plain
//! text; writing it into the directory is the caller's business, as is
//! resolving the resources directory to a real path beforehand.

use vstd::prelude::*;
use crate::html_builder::{
    empty_element_view,
    spec_render_dom,
    spec_el_height,
    spec_els_height,
    HtmlDom,
    HtmlElement,
    HtmlElementType,
    HtmlElementView,
};
use crate::paths::{
    file_name,
    path_join,
    spec_components,
    spec_file_name,
    spec_join,
    spec_join_segments,
    split_components,
    str_eq,
};
use crate::record::{
    get_first_photo,
    spec_first_photo,
    views_of,
    ActionRecord,
    ActionRecordView,
    PhotoAction,
    PhotoActionView,
};

verus! {

/// The image entry of an index page: a link to the original image, showing
/// its downsized copy.
pub open spec fn spec_format_image_template(p: PhotoActionView) -> HtmlElementView {
    let image_name = spec_file_name(p.downsized);
    let img = HtmlElementView {
        element_type: HtmlElementType::Img,
        src: Some(p.downsized),
        alt: Some(image_name),
        ..empty_element_view()
    };
    let link = HtmlElementView {
        element_type: HtmlElementType::A,
        class: seq!["images_link"@, "disp_img"@],
        sub_elements: seq![img],
        href: Some(p.actual),
        ..empty_element_view()
    };
    HtmlElementView {
        element_type: HtmlElementType::Div,
        class: seq!["images_item"@],
        sub_elements: seq![link],
        ..empty_element_view()
    }
}

/// Builds the image entry of an index page.
pub fn format_image_template(pa: &PhotoAction) -> (r: HtmlElement)
    ensures
        r@ == spec_format_image_template(pa@),
{
    let downsized = pa.get_downsized();
    let image_name = file_name(&downsized);
    let actual = pa.get_actual();
    let img = HtmlElement::new(HtmlElementType::Img).set_src(downsized.as_str()).set_alt(
        image_name.as_str(),
    );
    proof {
        assert(img@ =~= spec_format_image_template(pa@).sub_elements[0].sub_elements[0]);
    }
    let link = HtmlElement::new(HtmlElementType::A).add_class("images_link").set_href(
        actual.as_str(),
    ).add_element(img).add_class("disp_img");
    proof {
        assert(link@ =~= spec_format_image_template(pa@).sub_elements[0]);
    }
    let he = HtmlElement::new(HtmlElementType::Div).add_class("images_item").add_element(link);
    proof {
        assert(he@ =~= spec_format_image_template(pa@));
    }
    he
}

/// The suffix of a component list starting at the first component equal to
/// `name`; empty when none is.
pub open spec fn spec_tail_from(comps: Seq<Seq<char>>, name: Seq<char>) -> Seq<Seq<char>>
    decreases comps.len(),
{
    if comps.len() == 0 {
        Seq::empty()
    } else if comps[0] == name {
        comps
    } else {
        spec_tail_from(comps.drop_first(), name)
    }
}

/// The suffix starting at the first match is the suffix from its index.
pub proof fn lemma_tail_from_skip(comps: Seq<Seq<char>>, name: Seq<char>, j: int)
    requires
        0 <= j <= comps.len(),
        forall|k: int| 0 <= k < j ==> comps[k] != name,
        j < comps.len() ==> comps[j] == name,
    ensures
        spec_tail_from(comps, name) == comps.skip(j),
    decreases j,
{
    if j == 0 {
        if comps.len() == 0 {
            assert(spec_tail_from(comps, name) =~= comps.skip(0));
        } else {
            assert(comps.skip(0) =~= comps);
        }
    } else {
        assert(forall|k: int|
            0 <= k < j - 1 ==> #[trigger] comps.drop_first()[k] == comps[k + 1]);
        lemma_tail_from_skip(comps.drop_first(), name, j - 1);
        assert(comps.drop_first().skip(j - 1) =~= comps.skip(j));
    }
}

/// The index link of one subdirectory entry before any re-rooting: the
/// subdirectory's `index.html`, re-anchored under `.` when relative.
pub open spec fn spec_sub_index_path(dir: Seq<char>) -> Seq<char> {
    let sub_index = spec_join(dir, "index.html"@);
    if sub_index.len() > 0 && sub_index[0] == '/' {
        sub_index
    } else {
        let cs = spec_components(sub_index);
        spec_join_segments(
            "."@,
            if cs.len() >= 2 {
                cs.skip(2)
            } else {
                Seq::empty()
            },
        )
    }
}

/// The subdirectory entry of an index page.  With a cover photo the entry
/// links the subdirectory's own index and shows the cover; with local
/// resources both paths are re-rooted under `.` at the subdirectory's name
/// (a link too short to re-root is left as it is).
pub open spec fn spec_format_dir_template(v: ActionRecordView, local: bool) -> HtmlElementView {
    let dir_name = spec_file_name(v.dir);
    match spec_first_photo(v) {
        Some(p) => {
            let sub_index0 = spec_sub_index_path(v.dir);
            let cover0 = spec_join(p.dir, p.downsized);
            let cs = spec_components(sub_index0);
            let rerooted = local && cs.len() >= 2;
            let sub_index = if rerooted {
                spec_join(spec_join("."@, cs[cs.len() - 2]), cs[cs.len() - 1])
            } else {
                sub_index0
            };
            let cover = if rerooted {
                spec_join_segments(
                    "."@,
                    spec_tail_from(spec_components(cover0), cs[cs.len() - 2]),
                )
            } else {
                cover0
            };
            let img = HtmlElementView {
                element_type: HtmlElementType::Img,
                class: seq!["dirs_img"@],
                src: Some(cover),
                alt: Some(dir_name),
                ..empty_element_view()
            };
            let caption = HtmlElementView {
                element_type: HtmlElementType::P,
                text: Some(dir_name),
                ..empty_element_view()
            };
            let link = HtmlElementView {
                element_type: HtmlElementType::A,
                class: seq!["dirs_link"@],
                sub_elements: seq![img, caption],
                href: Some(sub_index),
                ..empty_element_view()
            };
            HtmlElementView {
                element_type: HtmlElementType::Div,
                class: seq!["dirs_item"@],
                sub_elements: seq![link],
                ..empty_element_view()
            }
        },
        None => {
            let img = HtmlElementView {
                element_type: HtmlElementType::Img,
                text: Some(dir_name),
                ..empty_element_view()
            };
            let link = HtmlElementView {
                element_type: HtmlElementType::A,
                class: seq!["dirs_link"@],
                sub_elements: seq![img],
                ..empty_element_view()
            };
            HtmlElementView {
                element_type: HtmlElementType::Div,
                class: seq!["dirs_item"@],
                sub_elements: seq![link],
                ..empty_element_view()
            }
        },
    }
}

/// Joins the components of `segs` from index `from` on, in order, onto `base`.
#[verifier::loop_isolation(false)]
fn join_segments_from(base: String, segs: &Vec<String>, from: usize) -> (r: String)
    requires
        from <= segs@.len(),
    ensures
        r@ == spec_join_segments(base@, views_of(segs@).skip(from as int)),
{
    let ghost vs = views_of(segs@);
    let mut acc = base;
    let mut i = from;
    proof {
        assert(vs.subrange(from as int, from as int) =~= Seq::<Seq<char>>::empty());
    }
    while i < segs.len()
        invariant
            from <= i <= segs@.len(),
            acc@ == spec_join_segments(base@, vs.subrange(from as int, i as int)),
        decreases segs@.len() - i,
    {
        acc = path_join(&acc, segs[i].as_str());
        proof {
            assert(vs.subrange(from as int, i as int + 1).drop_last() =~= vs.subrange(
                from as int,
                i as int,
            ));
            assert(vs.subrange(from as int, i as int + 1).last() == segs@[i as int]@);
        }
        i = i + 1;
    }
    proof {
        assert(vs.subrange(from as int, segs@.len() as int) =~= vs.skip(from as int));
    }
    acc
}

/// The index of the first component equal to `name`, or the count when none
/// is.
fn find_component(comps: &Vec<String>, name: &String) -> (j: usize)
    ensures
        j <= comps@.len(),
        forall|k: int| 0 <= k < j ==> views_of(comps@)[k] != name@,
        j < comps@.len() ==> views_of(comps@)[j as int] == name@,
{
    let mut j: usize = 0;
    while j < comps.len()
        invariant
            j <= comps@.len(),
            forall|k: int| 0 <= k < j ==> views_of(comps@)[k] != name@,
        decreases comps@.len() - j,
    {
        if str_eq(comps[j].as_str(), name.as_str()) {
            proof {
                assert(views_of(comps@)[j as int] == comps@[j as int]@);
            }
            return j;
        }
        proof {
            assert(views_of(comps@)[j as int] == comps@[j as int]@);
        }
        j = j + 1;
    }
    j
}

/// Builds the subdirectory entry of an index page.
#[verifier::loop_isolation(false)]
#[verifier::rlimit(50)]
pub fn format_dir_template(ar: &ActionRecord, local_resources: bool) -> (r: HtmlElement)
    ensures
        r@ == spec_format_dir_template(ar@, local_resources),
{
    let dir_path = ar.get_path();
    let mut sub_folder_index_path = path_join(&dir_path, "index.html");
    let dir_name = file_name(&dir_path);
    match get_first_photo(ar) {
        Some(pa) => {
            let cover_dir = pa.get_dir();
            let downsized = pa.get_downsized();
            let mut cover_photo_path = path_join(&cover_dir, downsized.as_str());
            let n0 = sub_folder_index_path.as_str().unicode_len();
            let absolute = n0 > 0 && sub_folder_index_path.as_str().get_char(0) == '/';
            if !absolute {
                let comps = split_components(&sub_folder_index_path);
                let from = if comps.len() >= 2 {
                    2
                } else {
                    comps.len()
                };
                proof {
                    if comps@.len() < 2 {
                        assert(views_of(comps@).skip(comps@.len() as int) =~= Seq::<
                            Seq<char>,
                        >::empty());
                    }
                }
                sub_folder_index_path = join_segments_from(String::from_str("."), &comps, from);
            }
            proof {
                assert(sub_folder_index_path@ == spec_sub_index_path(ar@.dir));
            }
            let ghost cs = spec_components(spec_sub_index_path(ar@.dir));
            let ghost cover0 = cover_photo_path@;
            if local_resources {
                let comps = split_components(&sub_folder_index_path);
                if comps.len() >= 2 {
                    let name_comp = comps[comps.len() - 2].clone();
                    proof {
                        assert(views_of(comps@) == cs);
                        assert(name_comp@ == views_of(comps@)[comps@.len() - 2]);
                        assert(name_comp@ == cs[cs.len() - 2]);
                    }
                    let dot = String::from_str(".");
                    let step = path_join(&dot, name_comp.as_str());
                    sub_folder_index_path = path_join(&step, comps[comps.len() - 1].as_str());
                    proof {
                        assert(views_of(comps@)[comps@.len() - 1] == cs[cs.len() - 1]);
                        assert(sub_folder_index_path@ == spec_join(
                            spec_join("."@, cs[cs.len() - 2]),
                            cs[cs.len() - 1],
                        ));
                    }
                    let cover_comps = split_components(&cover_photo_path);
                    let j = find_component(&cover_comps, &name_comp);
                    proof {
                        lemma_tail_from_skip(views_of(cover_comps@), name_comp@, j as int);
                    }
                    cover_photo_path = join_segments_from(String::from_str("."), &cover_comps, j);
                    proof {
                        assert(cover_photo_path@ == spec_join_segments(
                            "."@,
                            spec_tail_from(spec_components(cover0), cs[cs.len() - 2]),
                        ));
                    }
                }
            }
            let ghost rerooted = local_resources && cs.len() >= 2;
            let img = HtmlElement::new(HtmlElementType::Img).set_src(cover_photo_path.as_str())
                .set_alt(dir_name.as_str()).add_class("dirs_img");
            let caption = HtmlElement::new(HtmlElementType::P).set_text(dir_name.as_str());
            let link = HtmlElement::new(HtmlElementType::A).add_class("dirs_link").set_href(
                sub_folder_index_path.as_str(),
            ).add_element(img).add_element(caption);
            let he = HtmlElement::new(HtmlElementType::Div).add_class("dirs_item").add_element(
                link,
            );
            proof {
                let ghost spec_r = spec_format_dir_template(ar@, local_resources);
                assert(img@ =~= spec_r.sub_elements[0].sub_elements[0]);
                assert(caption@ =~= spec_r.sub_elements[0].sub_elements[1]);
                assert(link@.class =~= spec_r.sub_elements[0].class);
                assert(link@.sub_elements =~= spec_r.sub_elements[0].sub_elements);
                assert(link@ =~= spec_r.sub_elements[0]);
                assert(he@.class =~= spec_r.class);
                assert(he@.sub_elements =~= spec_r.sub_elements);
                assert(he@ =~= spec_r);
            }
            he
        },
        None => {
            let img = HtmlElement::new(HtmlElementType::Img).set_text(dir_name.as_str());
            let link = HtmlElement::new(HtmlElementType::A).add_class("dirs_link").add_element(
                img,
            );
            let he = HtmlElement::new(HtmlElementType::Div).add_class("dirs_item").add_element(
                link,
            );
            proof {
                assert(he@ =~= spec_format_dir_template(ar@, local_resources));
            }
            he
        },
    }
}

/// An element with no children has height one.
pub proof fn lemma_leaf_height(v: HtmlElementView)
    requires
        v.sub_elements.len() == 0,
    ensures
        spec_el_height(v) == 1,
{
}

/// A sequence of elements each no taller than `b` is no taller than `b`.
pub proof fn lemma_els_height_le(els: Seq<HtmlElementView>, b: nat)
    requires
        forall|i: int| 0 <= i < els.len() ==> spec_el_height(#[trigger] els[i]) <= b,
    ensures
        spec_els_height(els) <= b,
    decreases els.len(),
{
    if els.len() > 0 {
        assert(forall|i: int|
            0 <= i < els.len() - 1 ==> #[trigger] els.drop_last()[i] == els[i]);
        lemma_els_height_le(els.drop_last(), b);
    }
}

/// An image entry is three levels tall.
pub proof fn lemma_image_template_height(p: PhotoActionView)
    ensures
        spec_el_height(spec_format_image_template(p)) <= 3,
{
    let r = spec_format_image_template(p);
    let link = r.sub_elements[0];
    let img = link.sub_elements[0];
    lemma_leaf_height(img);
    lemma_els_height_le(link.sub_elements, 1);
    lemma_els_height_le(r.sub_elements, 2);
}

/// A subdirectory entry is at most three levels tall.
pub proof fn lemma_dir_template_height(v: ActionRecordView, local: bool)
    ensures
        spec_el_height(spec_format_dir_template(v, local)) <= 3,
{
    let r = spec_format_dir_template(v, local);
    let link = r.sub_elements[0];
    assert(forall|i: int|
        0 <= i < link.sub_elements.len() ==> spec_el_height(#[trigger] link.sub_elements[i])
            <= 1) by {
        assert(forall|i: int|
            0 <= i < link.sub_elements.len() ==> (#[trigger] link.sub_elements[i]).sub_elements.len()
                == 0);
    }
    lemma_els_height_le(link.sub_elements, 1);
    lemma_els_height_le(r.sub_elements, 2);
}

/// [`spec_format_dir_template`] as a value, for `map_values`.
pub open spec fn dir_template_fn(local: bool) -> spec_fn(ActionRecordView) -> HtmlElementView {
    |v: ActionRecordView| spec_format_dir_template(v, local)
}

/// [`spec_format_image_template`] as a value, for `map_values`.
pub open spec fn image_template_fn() -> spec_fn(PhotoActionView) -> HtmlElementView {
    |p: PhotoActionView| spec_format_image_template(p)
}

/// The children of an index page's body: a heading, an entry list and a
/// break for the subdirectories when there are any, then the same for the
/// images.
pub open spec fn spec_body_children(v: ActionRecordView, local: bool) -> Seq<HtmlElementView> {
    let dirs_part = if v.sub_dirs.len() > 0 {
        seq![
            (HtmlElementView {
                element_type: HtmlElementType::P,
                text: Some("Sub Directories"@),
                ..empty_element_view()
            }),
            (HtmlElementView {
                element_type: HtmlElementType::Div,
                class: seq!["dirs_list"@],
                sub_elements: v.sub_dirs.map_values(dir_template_fn(local)),
                ..empty_element_view()
            }),
            (HtmlElementView { element_type: HtmlElementType::Br, ..empty_element_view() }),
        ]
    } else {
        Seq::empty()
    };
    let imgs_part = if v.photos.len() > 0 {
        seq![
            (HtmlElementView {
                element_type: HtmlElementType::P,
                text: Some("Images"@),
                ..empty_element_view()
            }),
            (HtmlElementView {
                element_type: HtmlElementType::Div,
                class: seq!["images_list"@],
                sub_elements: v.photos.map_values(image_template_fn()),
                ..empty_element_view()
            }),
            (HtmlElementView { element_type: HtmlElementType::Br, ..empty_element_view() }),
        ]
    } else {
        Seq::empty()
    };
    dirs_part + imgs_part
}

/// The whole index page of one directory: the head linking the stylesheet
/// and script (under the cache directory when resources are local), then the
/// body.
pub open spec fn spec_index_dom(
    v: ActionRecordView,
    resources: Seq<char>,
    local: bool,
) -> Seq<HtmlElementView> {
    let styles = if !local {
        spec_join(resources, "styles.css"@)
    } else {
        "./cacheDir/styles.css"@
    };
    let script = if !local {
        spec_join(resources, "main.js"@)
    } else {
        "./cacheDir/main.js"@
    };
    let head = HtmlElementView {
        element_type: HtmlElementType::Head,
        sub_elements: seq![
            (HtmlElementView {
                element_type: HtmlElementType::Link,
                rel: Some("stylesheet"@),
                href: Some(styles),
                ..empty_element_view()
            }),
            (HtmlElementView {
                element_type: HtmlElementType::Script,
                src: Some(script),
                ..empty_element_view()
            }),
            (HtmlElementView {
                element_type: HtmlElementType::Title,
                text: Some("Photo Album"@),
                ..empty_element_view()
            }),
        ],
        ..empty_element_view()
    };
    let body = HtmlElementView {
        element_type: HtmlElementType::Body,
        sub_elements: spec_body_children(v, local),
        ..empty_element_view()
    };
    seq![head, body]
}

/// The text of one directory's index page.
pub open spec fn spec_create_html_index(
    v: ActionRecordView,
    resources: Seq<char>,
    local: bool,
) -> Seq<char> {
    spec_render_dom(spec_index_dom(v, resources, local))
}

/// Builds the text of one directory's index page from its action record.
/// `resources_path` must already be resolved to the real resources
/// directory; with `local_resources` the page instead points into the
/// directory's own cache.
#[verifier::loop_isolation(false)]
#[verifier::rlimit(100)]
pub fn create_html_index(
    ar: &ActionRecord,
    resources_path: &String,
    local_resources: bool,
) -> (r: String)
    ensures
        r@ == spec_create_html_index(ar@, resources_path@, local_resources),
{
    let ghost spec_dom = spec_index_dom(ar@, resources_path@, local_resources);
    let styles_path = if !local_resources {
        path_join(resources_path, "styles.css")
    } else {
        String::from_str("./cacheDir/styles.css")
    };
    let script_path = if !local_resources {
        path_join(resources_path, "main.js")
    } else {
        String::from_str("./cacheDir/main.js")
    };
    let mut dom = HtmlDom::new();
    let head = HtmlElement::new(HtmlElementType::Head).add_element(
        HtmlElement::new(HtmlElementType::Link).set_rel("stylesheet").set_href(
            styles_path.as_str(),
        ),
    ).add_element(
        HtmlElement::new(HtmlElementType::Script).set_src(script_path.as_str()),
    ).add_element(HtmlElement::new(HtmlElementType::Title).set_text("Photo Album"));
    proof {
        assert(head@.sub_elements =~= spec_dom[0].sub_elements);
        assert(head@ =~= spec_dom[0]);
        lemma_leaf_height(head@.sub_elements[0]);
        lemma_leaf_height(head@.sub_elements[1]);
        lemma_leaf_height(head@.sub_elements[2]);
        lemma_els_height_le(head@.sub_elements, 1);
        assert(spec_el_height(head@) <= 2);
    }
    dom.add_element(head);
    let mut body = HtmlElement::new(HtmlElementType::Body);
    let subs = ar.get_subdirs();
    if subs.len() > 0 {
        body = body.add_element(
            HtmlElement::new(HtmlElementType::P).set_text("Sub Directories"),
        );
        let mut list = HtmlElement::new(HtmlElementType::Div).add_class("dirs_list");
        let n = subs.len();
        let mut i: usize = 0;
        proof {
            assert(list@.sub_elements =~= ar@.sub_dirs.take(0).map_values(
                dir_template_fn(local_resources),
            ));
        }
        while i < n
            invariant
                i <= n,
                n == subs@.len(),
                list@ == (HtmlElementView {
                    element_type: HtmlElementType::Div,
                    class: seq!["dirs_list"@],
                    sub_elements: ar@.sub_dirs.take(i as int).map_values(
                        dir_template_fn(local_resources),
                    ),
                    ..empty_element_view()
                }),
            decreases n - i,
        {
            let entry = format_dir_template(&subs[i], local_resources);
            proof {
                assert(subs@[i as int]@ == ar@.sub_dirs[i as int]);
            }
            list = list.add_element(entry);
            proof {
                assert(list@.sub_elements =~= ar@.sub_dirs.take(i as int + 1).map_values(
                    dir_template_fn(local_resources),
                ));
                assert(list@ =~= (HtmlElementView {
                    element_type: HtmlElementType::Div,
                    class: seq!["dirs_list"@],
                    sub_elements: ar@.sub_dirs.take(i as int + 1).map_values(
                        dir_template_fn(local_resources),
                    ),
                    ..empty_element_view()
                }));
            }
            i = i + 1;
        }
        proof {
            assert(ar@.sub_dirs.take(n as int) =~= ar@.sub_dirs);
        }
        body = body.add_element(list);
        body = body.add_element(HtmlElement::new(HtmlElementType::Br));
    }
    let photos = ar.get_photos();
    if photos.len() > 0 {
        body = body.add_element(HtmlElement::new(HtmlElementType::P).set_text("Images"));
        let mut list = HtmlElement::new(HtmlElementType::Div).add_class("images_list");
        let n = photos.len();
        let mut i: usize = 0;
        proof {
            assert(list@.sub_elements =~= ar@.photos.take(0).map_values(image_template_fn()));
        }
        while i < n
            invariant
                i <= n,
                n == photos@.len(),
                list@ == (HtmlElementView {
                    element_type: HtmlElementType::Div,
                    class: seq!["images_list"@],
                    sub_elements: ar@.photos.take(i as int).map_values(image_template_fn()),
                    ..empty_element_view()
                }),
            decreases n - i,
        {
            let entry = format_image_template(&photos[i]);
            proof {
                assert(photos@[i as int]@ == ar@.photos[i as int]);
            }
            list = list.add_element(entry);
            proof {
                assert(list@.sub_elements =~= ar@.photos.take(i as int + 1).map_values(
                    image_template_fn(),
                ));
                assert(list@ =~= (HtmlElementView {
                    element_type: HtmlElementType::Div,
                    class: seq!["images_list"@],
                    sub_elements: ar@.photos.take(i as int + 1).map_values(image_template_fn()),
                    ..empty_element_view()
                }));
            }
            i = i + 1;
        }
        proof {
            assert(ar@.photos.take(n as int) =~= ar@.photos);
        }
        body = body.add_element(list);
        body = body.add_element(HtmlElement::new(HtmlElementType::Br));
    }
    proof {
        assert(body@.sub_elements =~= spec_body_children(ar@, local_resources));
        assert(body@ =~= spec_dom[1]);
        assert(forall|i: int|
            0 <= i < body@.sub_elements.len() ==> spec_el_height(
                #[trigger] body@.sub_elements[i],
            ) <= 4) by {
            assert(forall|i: int|
                0 <= i < ar@.sub_dirs.len() ==> spec_el_height(
                    #[trigger] ar@.sub_dirs.map_values(dir_template_fn(local_resources))[i],
                ) <= 3) by {
                assert forall|i: int| 0 <= i < ar@.sub_dirs.len() implies spec_el_height(
                    #[trigger] ar@.sub_dirs.map_values(dir_template_fn(local_resources))[i],
                ) <= 3 by {
                    lemma_dir_template_height(ar@.sub_dirs[i], local_resources);
                }
            }
            assert(forall|i: int|
                0 <= i < ar@.photos.len() ==> spec_el_height(
                    #[trigger] ar@.photos.map_values(image_template_fn())[i],
                ) <= 3) by {
                assert forall|i: int| 0 <= i < ar@.photos.len() implies spec_el_height(
                    #[trigger] ar@.photos.map_values(image_template_fn())[i],
                ) <= 3 by {
                    lemma_image_template_height(ar@.photos[i]);
                }
            }
            lemma_els_height_le(ar@.sub_dirs.map_values(dir_template_fn(local_resources)), 3);
            lemma_els_height_le(ar@.photos.map_values(image_template_fn()), 3);
            assert(forall|i: int|
                0 <= i < body@.sub_elements.len() ==> (#[trigger] body@.sub_elements[i]).sub_elements.len()
                    == 0 || body@.sub_elements[i].element_type is Div);
        }
        lemma_els_height_le(body@.sub_elements, 4);
        assert(spec_el_height(body@) <= 5);
    }
    dom.add_element(body);
    proof {
        assert(dom@ =~= spec_dom);
        lemma_els_height_le(dom@, 5);
    }
    let r = dom.render();
    r
}

} // verus!
