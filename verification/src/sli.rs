//! Reading SLI files (the XML export of a LIRA model): node coordinates,
//! elements with their node numbers, and materials. Coordinates and other
//! decimal values stay as the text written in the file.

use crate::element_matching::{shape_of, sli_shape, sli_vertex_positions, vertex_positions, SliShape};
use crate::lir_parser::{sli_kind, sli_node_numbers, LirParser, SliElements};
use crate::text::{parse_unsigned, parse_unsigned_range, chars_of};
use crate::types::{ElementType, LiraElement};
use crate::xml_tags::{
    attr_value, attributes_view, find_attribute, read_start_tags, start_view, starts_view,
    xml_start_tags, XmlStart,
};
use crate::text::same_text;
use vstd::prelude::*;

verus! {

/// A text as a character sequence, where there is one.
pub open spec fn opt_text(o: Option<String>) -> Option<Seq<char>> {
    match o {
        Some(s) => Some(s@),
        None => None,
    }
}

/// The coordinate texts of a `NodeCoords` tag (`NdX`, `NdY`, `NdZ`), each
/// missing where the tag lacks the attribute.
pub struct SliPoint {
    pub x: Option<String>,
    pub y: Option<String>,
    pub z: Option<String>,
}

/// A point as character sequences.
pub open spec fn point_view(p: SliPoint) -> (Option<Seq<char>>, Option<Seq<char>>, Option<Seq<char>>) {
    (opt_text(p.x), opt_text(p.y), opt_text(p.z))
}

/// Where the reading of an SLI file stands: the points so far, the elements
/// (number, kind, node numbers) and, for each element, the positions among
/// the points of its vertices.
pub struct SliScan {
    pub points: Seq<(Option<Seq<char>>, Option<Seq<char>>, Option<Seq<char>>)>,
    pub elements: Seq<(u32, ElementType, Seq<u32>)>,
    pub vertices: Seq<Seq<usize>>,
}

/// Nothing read yet.
pub open spec fn empty_scan() -> SliScan {
    SliScan { points: Seq::empty(), elements: Seq::empty(), vertices: Seq::empty() }
}

/// The node numbers as positions' 1-based numbers.
pub open spec fn as_usize(nodes: Seq<u32>) -> Seq<usize> {
    nodes.map_values(|n: u32| n as usize)
}

/// One start tag of an SLI file:
/// - `NodeCoords` adds a point with its coordinate texts;
/// - `Element` adds an element numbered after the ones before, of the kind
///   its `Type` names, with no nodes yet; without `Type`, or with `u32::MAX`
///   elements already, the reading stops (`None`);
/// - `Nodes` gives the last element, where there is one, the node numbers of
///   its attribute values and adds the points they name to its vertices;
/// - any other tag changes nothing.
pub open spec fn sli_step(st: SliScan, tag: (Seq<char>, Seq<(Seq<char>, Seq<char>)>)) -> Option<
    SliScan,
> {
    let name = tag.0;
    let attrs = tag.1;
    let n = st.elements.len();
    if name == "NodeCoords"@ {
        Some(
            SliScan {
                points: st.points.push(
                    (
                        attr_value(attrs, "NdX"@),
                        attr_value(attrs, "NdY"@),
                        attr_value(attrs, "NdZ"@),
                    ),
                ),
                elements: st.elements,
                vertices: st.vertices,
            },
        )
    } else if name == "Element"@ {
        match attr_value(attrs, "Type"@) {
            None => None,
            Some(t) => if n >= u32::MAX {
                None
            } else {
                Some(
                    SliScan {
                        points: st.points,
                        elements: st.elements.push(((n + 1) as u32, sli_kind(t), Seq::empty())),
                        vertices: st.vertices.push(Seq::empty()),
                    },
                )
            },
        }
    } else if name == "Nodes"@ && n > 0 {
        let nodes = sli_node_numbers(attrs.map_values(|a: (Seq<char>, Seq<char>)| a.1));
        let last = st.elements[n - 1];
        Some(
            SliScan {
                points: st.points,
                elements: st.elements.update(n - 1, (last.0, last.1, nodes)),
                vertices: st.vertices.update(
                    n - 1,
                    st.vertices[n - 1] + vertex_positions(as_usize(nodes), st.points.len()),
                ),
            },
        )
    } else {
        Some(st)
    }
}

/// The reading of a list of start tags: `Ok` with the result, or `Err` with
/// what was read before the tag at which it stops.
pub open spec fn sli_scan(tags: Seq<(Seq<char>, Seq<(Seq<char>, Seq<char>)>)>) -> Result<
    SliScan,
    SliScan,
>
    decreases tags.len(),
{
    if tags.len() == 0 {
        Ok(empty_scan())
    } else {
        match sli_scan(tags.drop_last()) {
            Ok(st) => match sli_step(st, tags.last()) {
                Some(next) => Ok(next),
                None => Err(st),
            },
            Err(st) => Err(st),
        }
    }
}

/// What is read from an SLI file.
pub struct SliModel {
    pub points: Vec<SliPoint>,
    pub elements: Vec<LiraElement>,
    /// For each element, the positions among `points` of its vertices.
    pub vertices: Vec<Vec<usize>>,
    /// Whether the XML reader reached the end without an error.
    pub xml_complete: bool,
}

impl SliModel {
    /// The model as a reading state.
    pub open spec fn scan_view(&self) -> SliScan {
        SliScan {
            points: self.points@.map_values(|p: SliPoint| point_view(p)),
            elements: self.elements@.map_values(
                |e: LiraElement| (e.id, e.element_type, e.nodes@),
            ),
            vertices: self.vertices@.map_values(|v: Vec<usize>| v@),
        }
    }
}

/// Every node number of a `Nodes` entry is at least 1.
proof fn lemma_node_numbers_positive(values: Seq<Seq<char>>)
    ensures
        forall|i: int| 0 <= i < sli_node_numbers(values).len() ==> #[trigger] sli_node_numbers(values)[i] >= 1,
    decreases values.len(),
{
    if values.len() > 0 {
        let prev = sli_node_numbers(values.drop_last());
        lemma_node_numbers_positive(values.drop_last());
        assert forall|i: int| 0 <= i < sli_node_numbers(values).len() implies #[trigger] sli_node_numbers(
            values,
        )[i] >= 1 by {
            if i < prev.len() {
                assert(sli_node_numbers(values)[i] == prev[i]);
            }
        }
    }
}

/// Once the reading of a prefix stops, the whole reading stops there.
proof fn lemma_sli_scan_err(tags: Seq<(Seq<char>, Seq<(Seq<char>, Seq<char>)>)>, k: int)
    requires
        0 <= k <= tags.len(),
        sli_scan(tags.take(k)) is Err,
    ensures
        sli_scan(tags) == sli_scan(tags.take(k)),
    decreases tags.len() - k,
{
    if k < tags.len() {
        assert(tags.take(k + 1).drop_last() =~= tags.take(k));
        lemma_sli_scan_err(tags, k + 1);
    } else {
        assert(tags.take(k) =~= tags);
    }
}

/// The values of a tag's attributes.
fn attribute_values(tag: &XmlStart) -> (values: Vec<String>)
    ensures
        values@.map_values(|v: String| v@) == attributes_view(tag.attributes@).map_values(
            |a: (Seq<char>, Seq<char>)| a.1,
        ),
{
    let mut values: Vec<String> = Vec::new();
    let mut i: usize = 0;
    while i < tag.attributes.len()
        invariant
            i <= tag.attributes.len(),
            values@.map_values(|v: String| v@) == attributes_view(tag.attributes@).take(
                i as int,
            ).map_values(|a: (Seq<char>, Seq<char>)| a.1),
        decreases tag.attributes.len() - i,
    {
        let ghost prev = values@;
        values.push(tag.attributes[i].1.clone());
        assert(attributes_view(tag.attributes@).take(i + 1).map_values(
            |a: (Seq<char>, Seq<char>)| a.1,
        ) =~= attributes_view(tag.attributes@).take(i as int).map_values(
            |a: (Seq<char>, Seq<char>)| a.1,
        ).push(tag.attributes@[i as int].1@));
        assert(values@.map_values(|v: String| v@) =~= prev.map_values(|v: String| v@).push(
            tag.attributes@[i as int].1@,
        ));
        i += 1;
    }
    assert(attributes_view(tag.attributes@).take(tag.attributes.len() as int) =~= attributes_view(
        tag.attributes@,
    ));
    values
}

/// The node numbers as positions' numbers.
fn widen(nodes: &Vec<u32>) -> (r: Vec<usize>)
    ensures
        r@ == as_usize(nodes@),
{
    let mut r: Vec<usize> = Vec::new();
    let mut i: usize = 0;
    while i < nodes.len()
        invariant
            i <= nodes.len(),
            r@ == as_usize(nodes@.take(i as int)),
        decreases nodes.len() - i,
    {
        assert(as_usize(nodes@.take(i + 1)) =~= as_usize(nodes@.take(i as int)).push(
            nodes@[i as int] as usize,
        ));
        r.push(nodes[i] as usize);
        i += 1;
    }
    assert(nodes@.take(nodes.len() as int) =~= nodes@);
    r
}

/// Reads the start tags of an SLI file: `Ok` with the model, or `Err` with
/// what was read before an `Element` tag without `Type` (or one element too
/// many to number), where the reading stops.
pub fn sli_model_from_tags(tags: &Vec<XmlStart>, xml_complete: bool) -> (r: Result<SliModel, SliModel>)
    ensures
        sli_scan(starts_view(tags@)) == match r {
            Ok(m) => Ok(m.scan_view()),
            Err(m) => Err(m.scan_view()),
        },
        match r {
            Ok(m) => m.xml_complete == xml_complete,
            Err(m) => m.xml_complete == xml_complete,
        },
{
    let ghost tv = starts_view(tags@);
    let mut points: Vec<SliPoint> = Vec::new();
    let mut sli = SliElements::new();
    let mut vertices: Vec<Vec<usize>> = Vec::new();
    let mut i: usize = 0;
    assert(tv.take(0) =~= Seq::<(Seq<char>, Seq<(Seq<char>, Seq<char>)>)>::empty());
    assert(sli.elements@.map_values(|e: LiraElement| (e.id, e.element_type, e.nodes@)) =~= Seq::<
        (u32, ElementType, Seq<u32>),
    >::empty());
    assert(points@.map_values(|p: SliPoint| point_view(p)) =~= Seq::<
        (Option<Seq<char>>, Option<Seq<char>>, Option<Seq<char>>),
    >::empty());
    assert(vertices@.map_values(|v: Vec<usize>| v@) =~= Seq::<Seq<usize>>::empty());
    while i < tags.len()
        invariant
            i <= tags.len(),
            tv == starts_view(tags@),
            vertices.len() == sli.elements.len(),
            sli_scan(tv.take(i as int)) == Ok::<SliScan, SliScan>(
                (SliModel { points, elements: sli.elements, vertices, xml_complete }).scan_view(),
            ),
        decreases tags.len() - i,
    {
        let tag = &tags[i];
        let ghost st = (SliModel { points, elements: sli.elements, vertices, xml_complete }).scan_view();
        let ghost t = tv[i as int];
        assert(t == start_view(*tag));
        assert(tv.take(i + 1).drop_last() =~= tv.take(i as int));
        assert(tv.take(i + 1).last() == t);
        let name = tag.name.as_str();
        if same_text(name, "NodeCoords") {
            let x = match find_attribute(tag, "NdX") { Some(v) => Some(v.clone()), None => None };
            let y = match find_attribute(tag, "NdY") { Some(v) => Some(v.clone()), None => None };
            let z = match find_attribute(tag, "NdZ") { Some(v) => Some(v.clone()), None => None };
            let ghost before = points@;
            points.push(SliPoint { x, y, z });
            assert(points@.map_values(|p: SliPoint| point_view(p)) =~= before.map_values(
                |p: SliPoint| point_view(p),
            ).push(point_view(points@[before.len() as int])));
        } else if same_text(name, "Element") {
            match find_attribute(tag, "Type") {
                None => {
                    proof {
                        lemma_sli_scan_err(tv, i + 1);
                    }
                    return Err(SliModel { points, elements: sli.elements, vertices, xml_complete });
                },
                Some(type_attr) => {
                    if sli.elements.len() >= 0xFFFF_FFFF {
                        proof {
                            lemma_sli_scan_err(tv, i + 1);
                        }
                        return Err(SliModel { points, elements: sli.elements, vertices, xml_complete });
                    }
                    let ghost before = sli.elements@;
                    let ghost vbefore = vertices@;
                    sli.start_element(type_attr.as_str());
                    vertices.push(Vec::new());
                    assert(sli.elements@.last().nodes@ =~= Seq::<u32>::empty());
                    assert forall|j: int| 0 <= j < before.len() implies sli.elements@[j] == before[j] by {
                        assert(sli.elements@.drop_last()[j] == sli.elements@[j]);
                    }
                    assert(sli.elements@ =~= before.push(sli.elements@.last()));
                    assert(sli.elements@.map_values(
                        |e: LiraElement| (e.id, e.element_type, e.nodes@),
                    ) =~= before.map_values(|e: LiraElement| (e.id, e.element_type, e.nodes@)).push(
                        ((before.len() + 1) as u32, sli_kind(type_attr@), Seq::<u32>::empty()),
                    ));
                    assert(vertices@.map_values(|v: Vec<usize>| v@) =~= vbefore.map_values(
                        |v: Vec<usize>| v@,
                    ).push(Seq::<usize>::empty()));
                },
            }
        } else if same_text(name, "Nodes") && sli.elements.len() > 0 {
            let values = attribute_values(tag);
            let ghost before = sli.elements@;
            sli.set_nodes(&values);
            let n = sli.elements.len();
            let nums = widen(&sli.elements[n - 1].nodes);
            proof {
                lemma_node_numbers_positive(values@.map_values(|v: String| v@));
            }
            let positions = sli_vertex_positions(&nums, points.len());
            let ghost vbefore = vertices@;
            let mut last = vertices.pop().unwrap();
            let ghost lbefore = last@;
            let mut k: usize = 0;
            while k < positions.len()
                invariant
                    k <= positions.len(),
                    last@ == lbefore + positions@.take(k as int),
                decreases positions.len() - k,
            {
                last.push(positions[k]);
                assert(positions@.take(k + 1) =~= positions@.take(k as int).push(positions@[k as int]));
                k += 1;
            }
            assert(positions@.take(positions.len() as int) =~= positions@);
            vertices.push(last);
            assert(vertices@ =~= vbefore.update(n - 1, vertices@[n - 1]));
            assert forall|j: int| 0 <= j < n - 1 implies sli.elements@[j] == before[j] by {
                assert(sli.elements@.drop_last()[j] == sli.elements@[j]);
                assert(before.drop_last()[j] == before[j]);
            }
            assert(sli.elements@ =~= before.update(n - 1, sli.elements@[n - 1]));
            assert(sli.elements@.map_values(|e: LiraElement| (e.id, e.element_type, e.nodes@))
                =~= st.elements.update(
                n - 1,
                (st.elements[n - 1].0, st.elements[n - 1].1, sli.elements@[n - 1].nodes@),
            ));
            assert(vertices@.map_values(|v: Vec<usize>| v@) =~= st.vertices.update(
                n - 1,
                st.vertices[n - 1] + vertex_positions(as_usize(sli.elements@[n - 1].nodes@), st.points.len()),
            ));
        }
        i += 1;
    }
    assert(tv.take(tags.len() as int) =~= tv);
    Ok(SliModel { points, elements: sli.elements, vertices, xml_complete })
}

impl LirParser {
    /// Reads the XML of an SLI file: the start tags that the XML reader
    /// gives, read by `sli_scan`. `Err` holds what was read before the tag
    /// at which the reading stops.
    pub fn parse_sli_content(&self, content: &str) -> (r: Result<SliModel, SliModel>)
        ensures
            sli_scan(xml_start_tags(content@).0) == match r {
                Ok(m) => Ok(m.scan_view()),
                Err(m) => Err(m.scan_view()),
            },
            match r {
                Ok(m) => m.xml_complete == xml_start_tags(content@).1,
                Err(m) => m.xml_complete == xml_start_tags(content@).1,
            },
    {
        let (tags, complete) = read_start_tags(content);
        sli_model_from_tags(&tags, complete)
    }
}

/// Parses a decimal number that fits in `usize`, as `str::parse` does.
fn parse_usize(s: &str) -> (r: Option<usize>)
    ensures
        r matches Some(v) ==> parse_unsigned(s@, usize::MAX as nat) == Some(v as nat),
        r is None ==> parse_unsigned(s@, usize::MAX as nat) is None,
{
    let chars = chars_of(s);
    proof {
        assert(chars@.subrange(0, chars@.len() as int) =~= s@);
    }
    match parse_unsigned_range(chars.as_slice(), 0, chars.len(), usize::MAX as u64) {
        Some(v) => Some(v as usize),
        None => None,
    }
}

/// Every text read as a `usize`, or `None` where one does not read.
pub open spec fn all_usize(values: Seq<Seq<char>>) -> Option<Seq<usize>>
    decreases values.len(),
{
    if values.len() == 0 {
        Some(Seq::empty())
    } else {
        match (all_usize(values.drop_last()), parse_unsigned(values.last(), usize::MAX as nat)) {
            (Some(prev), Some(v)) => Some(prev.push(v as usize)),
            _ => None,
        }
    }
}

/// The node texts of a point, an element of the element list, and a
/// material, as the records reading sees them.
pub struct SliRecordScan {
    pub points: Seq<(Seq<char>, Seq<char>, Seq<char>)>,
    /// Kind, material number, vertex positions, shape once nodes are given
    pub entities: Seq<(ElementType, Option<usize>, Seq<usize>, Option<SliShape>)>,
    /// Number, `H`, `SGType`, `b_OR_D`, `h_OR_d`
    pub materials: Seq<(usize, Seq<char>, Option<Seq<char>>, Option<Seq<char>>, Option<Seq<char>>)>,
}

/// The material number that an `Element` tag names, where it reads.
pub open spec fn element_material(attrs: Seq<(Seq<char>, Seq<char>)>) -> Option<usize> {
    match attr_value(attrs, "Material"@) {
        Some(v) => match parse_unsigned(v, usize::MAX as nat) {
            Some(n) => Some(n as usize),
            None => None,
        },
        None => None,
    }
}

/// One start tag of the records reading; `None` where it stops:
/// - `NodeCoords` adds a point; it stops without `NdX`, `NdY` or `NdZ`;
/// - `Element` adds an element of the kind its `Type` names (stops
///   without), with the material number of `Material` where it reads, and
///   no vertices;
/// - `Nodes` stops unless every attribute value reads as a `usize`; where
///   there is an element, it stops at a node number 0, and otherwise the
///   last element gains the points the numbers name and takes the shape of
///   its vertex count;
/// - `Material` adds a material with its `Num` and `H` (stops where `Num` is
///   missing or does not read, or `H` is missing);
/// - `SectGeom`, after a material, sets the last material's `SGType`,
///   `b_OR_D` and `h_OR_d` to those of the tag;
/// - any other tag changes nothing.
pub open spec fn record_step(st: SliRecordScan, tag: (Seq<char>, Seq<(Seq<char>, Seq<char>)>)) -> Option<
    SliRecordScan,
> {
    let name = tag.0;
    let attrs = tag.1;
    let n = st.entities.len();
    let m = st.materials.len();
    if name == "NodeCoords"@ {
        match (attr_value(attrs, "NdX"@), attr_value(attrs, "NdY"@), attr_value(attrs, "NdZ"@)) {
            (Some(x), Some(y), Some(z)) => Some(
                SliRecordScan {
                    points: st.points.push((x, y, z)),
                    entities: st.entities,
                    materials: st.materials,
                },
            ),
            _ => None,
        }
    } else if name == "Element"@ {
        match attr_value(attrs, "Type"@) {
            Some(t) => Some(
                SliRecordScan {
                    points: st.points,
                    entities: st.entities.push(
                        (sli_kind(t), element_material(attrs), Seq::empty(), None),
                    ),
                    materials: st.materials,
                },
            ),
            None => None,
        }
    } else if name == "Nodes"@ {
        match all_usize(attrs.map_values(|a: (Seq<char>, Seq<char>)| a.1)) {
            None => None,
            Some(nums) => if n == 0 {
                Some(st)
            } else if nums.contains(0) {
                None
            } else {
                let e = st.entities[n - 1];
                let vs = e.2 + vertex_positions(nums, st.points.len());
                Some(
                    SliRecordScan {
                        points: st.points,
                        entities: st.entities.update(
                            n - 1,
                            (e.0, e.1, vs, Some(shape_of(vs.len()))),
                        ),
                        materials: st.materials,
                    },
                )
            },
        }
    } else if name == "Material"@ {
        match (attr_value(attrs, "Num"@), attr_value(attrs, "H"@)) {
            (Some(num), Some(h)) => match parse_unsigned(num, usize::MAX as nat) {
                Some(k) => Some(
                    SliRecordScan {
                        points: st.points,
                        entities: st.entities,
                        materials: st.materials.push((k as usize, h, None, None, None)),
                    },
                ),
                None => None,
            },
            _ => None,
        }
    } else if name == "SectGeom"@ && m > 0 {
        let mat = st.materials[m - 1];
        Some(
            SliRecordScan {
                points: st.points,
                entities: st.entities,
                materials: st.materials.update(
                    m - 1,
                    (
                        mat.0,
                        mat.1,
                        attr_value(attrs, "SGType"@),
                        attr_value(attrs, "b_OR_D"@),
                        attr_value(attrs, "h_OR_d"@),
                    ),
                ),
            },
        )
    } else {
        Some(st)
    }
}

/// The records reading of a list of start tags; `None` where it stops.
pub open spec fn record_scan(tags: Seq<(Seq<char>, Seq<(Seq<char>, Seq<char>)>)>) -> Option<
    SliRecordScan,
>
    decreases tags.len(),
{
    if tags.len() == 0 {
        Some(SliRecordScan { points: Seq::empty(), entities: Seq::empty(), materials: Seq::empty() })
    } else {
        match record_scan(tags.drop_last()) {
            Some(st) => record_step(st, tags.last()),
            None => None,
        }
    }
}

/// The coordinate texts of a point of the records reading.
pub struct SliNodeText {
    pub x: String,
    pub y: String,
    pub z: String,
}

/// An element of the records reading.
pub struct SliEntity {
    pub kind: ElementType,
    pub material_num: Option<usize>,
    /// Positions among the points of its vertices
    pub vertices: Vec<usize>,
    /// The shape of its vertex count, once a `Nodes` tag gave its nodes
    pub shape: Option<SliShape>,
}

/// A material: its number, the text of `H`, and the section texts.
pub struct SliMaterial {
    pub num: usize,
    pub h: String,
    pub sg_type: Option<String>,
    pub b_or_d: Option<String>,
    pub h_or_d: Option<String>,
}

/// What the records reading gives.
pub struct SliRecords {
    pub points: Vec<SliNodeText>,
    pub entities: Vec<SliEntity>,
    pub materials: Vec<SliMaterial>,
    /// Whether the XML reader reached the end without an error.
    pub xml_complete: bool,
}

/// A point as character sequences.
pub open spec fn node_text_view(p: SliNodeText) -> (Seq<char>, Seq<char>, Seq<char>) {
    (p.x@, p.y@, p.z@)
}

/// An element as the records reading sees it.
pub open spec fn entity_view(e: SliEntity) -> (ElementType, Option<usize>, Seq<usize>, Option<SliShape>) {
    (e.kind, e.material_num, e.vertices@, e.shape)
}

/// A material as character sequences.
pub open spec fn material_view(m: SliMaterial) -> (
    usize,
    Seq<char>,
    Option<Seq<char>>,
    Option<Seq<char>>,
    Option<Seq<char>>,
) {
    (m.num, m.h@, opt_text(m.sg_type), opt_text(m.b_or_d), opt_text(m.h_or_d))
}

impl SliRecords {
    /// The records as a reading state.
    pub open spec fn record_view(&self) -> SliRecordScan {
        SliRecordScan {
            points: self.points@.map_values(|p: SliNodeText| node_text_view(p)),
            entities: self.entities@.map_values(|e: SliEntity| entity_view(e)),
            materials: self.materials@.map_values(|m: SliMaterial| material_view(m)),
        }
    }
}

/// Once the reading of a prefix stops, the whole reading stops.
proof fn lemma_record_scan_none(tags: Seq<(Seq<char>, Seq<(Seq<char>, Seq<char>)>)>, k: int)
    requires
        0 <= k <= tags.len(),
        record_scan(tags.take(k)) is None,
    ensures
        record_scan(tags) is None,
    decreases tags.len() - k,
{
    if k < tags.len() {
        assert(tags.take(k + 1).drop_last() =~= tags.take(k));
        lemma_record_scan_none(tags, k + 1);
    } else {
        assert(tags.take(k) =~= tags);
    }
}

/// Once a prefix does not read, the whole list does not.
proof fn lemma_all_usize_none(values: Seq<Seq<char>>, k: int)
    requires
        0 <= k <= values.len(),
        all_usize(values.take(k)) is None,
    ensures
        all_usize(values) is None,
    decreases values.len() - k,
{
    if k < values.len() {
        assert(values.take(k + 1).drop_last() =~= values.take(k));
        lemma_all_usize_none(values, k + 1);
    } else {
        assert(values.take(k) =~= values);
    }
}

/// Whether a node number is 0.
fn has_zero(nums: &Vec<usize>) -> (r: bool)
    ensures
        r == nums@.contains(0),
{
    let mut k: usize = 0;
    while k < nums.len()
        invariant
            k <= nums.len(),
            forall|q: int| 0 <= q < k ==> nums@[q] != 0,
        decreases nums.len() - k,
    {
        if nums[k] == 0 {
            assert(nums@[k as int] == 0);
            return true;
        }
        k += 1;
    }
    false
}

/// The attribute values of a tag read as `usize`, or `None` where one does
/// not read.
fn read_usizes(tag: &XmlStart) -> (r: Option<Vec<usize>>)
    ensures
        match r {
            Some(v) => all_usize(attributes_view(tag.attributes@).map_values(
                |a: (Seq<char>, Seq<char>)| a.1,
            )) == Some(v@),
            None => all_usize(attributes_view(tag.attributes@).map_values(
                |a: (Seq<char>, Seq<char>)| a.1,
            )) is None,
        },
{
    let ghost vs = attributes_view(tag.attributes@).map_values(|a: (Seq<char>, Seq<char>)| a.1);
    let mut nums: Vec<usize> = Vec::new();
    let mut i: usize = 0;
    assert(vs.take(0) =~= Seq::<Seq<char>>::empty());
    while i < tag.attributes.len()
        invariant
            i <= tag.attributes.len(),
            vs == attributes_view(tag.attributes@).map_values(|a: (Seq<char>, Seq<char>)| a.1),
            all_usize(vs.take(i as int)) == Some(nums@),
        decreases tag.attributes.len() - i,
    {
        assert(vs.take(i + 1).drop_last() =~= vs.take(i as int));
        assert(vs.take(i + 1).last() == tag.attributes@[i as int].1@);
        match parse_usize(tag.attributes[i].1.as_str()) {
            Some(v) => {
                nums.push(v);
            },
            None => {
                proof {
                    lemma_all_usize_none(vs, i + 1);
                }
                return None;
            },
        }
        i += 1;
    }
    assert(vs.take(tag.attributes.len() as int) =~= vs);
    Some(nums)
}

/// The text of an attribute, where the tag has it.
fn attribute_text(tag: &XmlStart, key: &str) -> (r: Option<String>)
    ensures
        opt_text(r) == attr_value(attributes_view(tag.attributes@), key@),
{
    match find_attribute(tag, key) {
        Some(v) => Some(v.clone()),
        None => None,
    }
}

/// A `Nodes` tag of the records reading: `false` where the reading stops.
fn record_nodes(rec: &mut SliRecords, tag: &XmlStart) -> (ok: bool)
    requires
        tag.name@ != "NodeCoords"@,
        tag.name@ != "Element"@,
        tag.name@ == "Nodes"@,
    ensures
        ok ==> record_step(old(rec).record_view(), start_view(*tag)) == Some(final(rec).record_view()),
        !ok ==> record_step(old(rec).record_view(), start_view(*tag)) is None,
        final(rec).xml_complete == old(rec).xml_complete,
{
    let ghost st = rec.record_view();
    match read_usizes(tag) {
        None => false,
        Some(nums) => {
            if rec.entities.len() == 0 {
                return true;
            }
            if has_zero(&nums) {
                return false;
            }
            let positions = sli_vertex_positions(&nums, rec.points.len());
            let ghost before = rec.entities@;
            let n = rec.entities.len();
            let mut e = rec.entities.pop().unwrap();
            assert(e == before[n - 1]);
            let ghost vbefore = e.vertices@;
            append_positions(&mut e.vertices, &positions);
            e.shape = Some(sli_shape(e.vertices.len()));
            rec.entities.push(e);
            assert(rec.entities@ =~= before.update(n - 1, rec.entities@[n - 1]));
            assert(rec.entities@.map_values(|e: SliEntity| entity_view(e)) =~= st.entities.update(
                n - 1,
                entity_view(rec.entities@[n - 1]),
            ));
            assert(st.entities[n - 1] == entity_view(before[n - 1]));
            assert(rec.record_view().points == st.points);
            assert(rec.record_view().materials == st.materials);
            true
        },
    }
}

/// Appends `src` to `dst`.
fn append_positions(dst: &mut Vec<usize>, src: &Vec<usize>)
    ensures
        final(dst)@ == old(dst)@ + src@,
{
    let mut k: usize = 0;
    while k < src.len()
        invariant
            k <= src.len(),
            dst@ == old(dst)@ + src@.take(k as int),
        decreases src.len() - k,
    {
        dst.push(src[k]);
        assert(src@.take(k + 1) =~= src@.take(k as int).push(src@[k as int]));
        k += 1;
    }
    assert(src@.take(src.len() as int) =~= src@);
}

/// Reads the start tags of an SLI file as `record_scan` does: points,
/// elements and materials, or `None` where the reading stops.
pub fn sli_records_from_tags(tags: &Vec<XmlStart>, xml_complete: bool) -> (r: Option<SliRecords>)
    ensures
        match r {
            Some(m) => record_scan(starts_view(tags@)) == Some(m.record_view())
                && m.xml_complete == xml_complete,
            None => record_scan(starts_view(tags@)) is None,
        },
{
    let ghost tv = starts_view(tags@);
    let mut rec = SliRecords {
        points: Vec::new(),
        entities: Vec::new(),
        materials: Vec::new(),
        xml_complete,
    };
    assert(rec.record_view().points =~= Seq::empty());
    assert(rec.record_view().entities =~= Seq::empty());
    assert(rec.record_view().materials =~= Seq::empty());
    assert(tv.take(0) =~= Seq::<(Seq<char>, Seq<(Seq<char>, Seq<char>)>)>::empty());
    let mut i: usize = 0;
    while i < tags.len()
        invariant
            i <= tags.len(),
            tv == starts_view(tags@),
            rec.xml_complete == xml_complete,
            record_scan(tv.take(i as int)) == Some(rec.record_view()),
        decreases tags.len() - i,
    {
        let tag = &tags[i];
        let ghost st = rec.record_view();
        let ghost t = tv[i as int];
        assert(t == start_view(*tag));
        assert(tv.take(i + 1).drop_last() =~= tv.take(i as int));
        assert(tv.take(i + 1).last() == t);
        let name = tag.name.as_str();
        if same_text(name, "NodeCoords") {
            let x = attribute_text(tag, "NdX");
            let y = attribute_text(tag, "NdY");
            let z = attribute_text(tag, "NdZ");
            match (x, y, z) {
                (Some(x), Some(y), Some(z)) => {
                    let ghost before = rec.points@;
                    rec.points.push(SliNodeText { x, y, z });
                    assert(rec.points@.map_values(|p: SliNodeText| node_text_view(p))
                        =~= before.map_values(|p: SliNodeText| node_text_view(p)).push(
                        node_text_view(rec.points@[before.len() as int]),
                    ));
                },
                _ => {
                    proof {
                        lemma_record_scan_none(tv, i + 1);
                    }
                    return None;
                },
            }
        } else if same_text(name, "Element") {
            match attribute_text(tag, "Type") {
                Some(t) => {
                    let material_num = match find_attribute(tag, "Material") {
                        Some(v) => parse_usize(v.as_str()),
                        None => None,
                    };
                    let kind = if same_text(t.as_str(), "1") {
                        ElementType::Beam
                    } else if same_text(t.as_str(), "2") {
                        ElementType::Shell
                    } else {
                        ElementType::Unknown
                    };
                    proof {
                        reveal_strlit("1");
                        reveal_strlit("2");
                    }
                    let ghost before = rec.entities@;
                    rec.entities.push(SliEntity { kind, material_num, vertices: Vec::new(), shape: None });
                    assert(rec.entities@[before.len() as int].vertices@ =~= Seq::<usize>::empty());
                    assert(rec.entities@.map_values(|e: SliEntity| entity_view(e)) =~= before.map_values(
                        |e: SliEntity| entity_view(e),
                    ).push(entity_view(rec.entities@[before.len() as int])));

                },
                None => {
                    proof {
                        lemma_record_scan_none(tv, i + 1);
                    }
                    return None;
                },
            }
        } else if same_text(name, "Nodes") {
            if !record_nodes(&mut rec, tag) {
                proof {
                    lemma_record_scan_none(tv, i + 1);
                }
                return None;
            }
        } else if same_text(name, "Material") {
            let num = attribute_text(tag, "Num");
            let h = attribute_text(tag, "H");
            match (num, h) {
                (Some(num), Some(h)) => match parse_usize(num.as_str()) {
                    Some(k) => {
                        let ghost before = rec.materials@;
                        rec.materials.push(
                            SliMaterial { num: k, h, sg_type: None, b_or_d: None, h_or_d: None },
                        );
                        assert(rec.materials@.map_values(|m: SliMaterial| material_view(m))
                            =~= before.map_values(|m: SliMaterial| material_view(m)).push(
                            material_view(rec.materials@[before.len() as int]),
                        ));
                    },
                    None => {
                        proof {
                            lemma_record_scan_none(tv, i + 1);
                        }
                        return None;
                    },
                },
                _ => {
                    proof {
                        lemma_record_scan_none(tv, i + 1);
                    }
                    return None;
                },
            }
        } else if same_text(name, "SectGeom") && rec.materials.len() > 0 {
            let ghost before = rec.materials@;
            let mut mat = rec.materials.pop().unwrap();
            mat.sg_type = attribute_text(tag, "SGType");
            mat.b_or_d = attribute_text(tag, "b_OR_D");
            mat.h_or_d = attribute_text(tag, "h_OR_d");
            rec.materials.push(mat);
            let m = rec.materials.len();
            assert(rec.materials@ =~= before.update(m - 1, rec.materials@[m - 1]));
            assert(rec.materials@.map_values(|m: SliMaterial| material_view(m)) =~= st.materials.update(
                m - 1,
                material_view(rec.materials@[m - 1]),
            ));
        }
        i += 1;
    }
    assert(tv.take(tags.len() as int) =~= tv);
    Some(rec)
}

/// Reads the XML of an SLI file as `record_scan` reads its start tags:
/// points, elements and materials, or `None` where the reading stops.
pub fn read_sli_records(content: &str) -> (r: Option<SliRecords>)
    ensures
        match r {
            Some(m) => record_scan(xml_start_tags(content@).0) == Some(m.record_view())
                && m.xml_complete == xml_start_tags(content@).1,
            None => record_scan(xml_start_tags(content@).0) is None,
        },
{
    let (tags, complete) = read_start_tags(content);
    sli_records_from_tags(&tags, complete)
}

} // verus!
