use crate::graph::{
    analysed, components_hold, ids_at_node, law_unlinked_elements_are_alone, lemma_no_ids_unused,
    node_index, shares_node, GraphAnalyzer,
};
use crate::lira_file::{
    coordinates_after, coordinates_of, coords_view, distinct_ids, doc_map, elem_view, elements_of,
    elems_view, find_document, read_coordinates, read_document_lines, read_elements, scan_lines,
    scan_start, trimmed_lines, CoordinateFields, WorkingProjectDocument, WorkingProjectElement,
    WorkingProjectLiraFile,
};
use crate::patterns::{captures, compile_pattern, group_texts, regex_compiles, uppercase, Pattern};
use crate::text::{
    same_text, chars_of, lemma_split_when_len, lines, parse_unsigned, parse_unsigned_range, pieces_of,
    separator, split_char, split_ranges, split_when, string_of_range, trim, trim_bounds,
};
use crate::text_format::{
    comment_range, distinct_nodes, element_from_groups, element_line, element_pattern,
    element_pattern_text, elements_view, has_groups, is_decimal_text, lira_view, node_from_groups,
    node_line, node_pattern, node_pattern_text, node_view, nodes_view, section_range, text_line,
    text_lines, text_start, upsert_node_fields, LiraNodeFields, ParseResult, TextScan,
};
use crate::types::{ConnectedGroup, ElementType, FileMetadata, LiraElement};
use vstd::prelude::*;

verus! {

/// What went wrong when reading a model.
#[derive(Debug, Clone, Copy, PartialEq, Eq, Structural)]
pub enum LiraErrorKind {
    /// A regular expression of the text format did not compile.
    Pattern,
    /// A piece of a node list that is not a `u32`.
    InvalidNodeNumber,
    /// An element line whose node list does not read.
    InvalidNodeList,
    /// An element line whose number is not a `u32`.
    InvalidElementNumber,
    /// A node line whose number is not a `u32`.
    InvalidNodeId,
    /// A node line whose X coordinate is not a number.
    InvalidX,
    /// A node line whose Y coordinate is not a number.
    InvalidY,
    /// A node line whose Z coordinate is not a number.
    InvalidZ,
    /// Binary data that decodes to no document text.
    Undecodable,
}

/// Why a model could not be read, with the text at fault.
#[derive(Debug)]
pub struct LiraError {
    pub kind: LiraErrorKind,
    pub text: String,
}

/// The kind and text of an error.
pub open spec fn err_view(e: LiraError) -> (LiraErrorKind, Seq<char>) {
    (e.kind, e.text@)
}

/// The kind of an element of a LIRA document file: by its type code, else by
/// how many coordinates it has.
pub open spec fn element_kind(code: u32, ncoords: nat) -> ElementType {
    if code == 5 || code == 10 {
        ElementType::Beam
    } else if code == 43 || code == 44 {
        ElementType::Shell
    } else if ncoords == 2 {
        ElementType::Beam
    } else if ncoords == 3 || ncoords == 4 {
        ElementType::Shell
    } else {
        ElementType::Unknown
    }
}

/// The node numbers given to element `k` (counted from 0) with `count`
/// coordinates: `10 k + 1`, `10 k + 2`, ...
pub open spec fn node_numbers(k: nat, count: nat) -> Seq<u32> {
    Seq::new(count, |i: int| (k * 10 + 1 + i) as u32)
}

/// Every element numbered as `convert_from_working_project` numbers it fits
/// in a `u32`: element `k` takes number `k + 1` and nodes up to `10 k + n`.
pub open spec fn numbers_fit(elems: Seq<WorkingProjectElement>) -> bool {
    forall|k: int|
        0 <= k < elems.len() ==> k * 10 + 1 + (#[trigger] elems[k]).coordinate_indices@.len()
            <= u32::MAX as int + 1
}

/// Element `k` of a document file, as the analysis sees it.
pub open spec fn converted_element(e: LiraElement, k: int, w: WorkingProjectElement) -> bool {
    &&& e.id == k + 1
    &&& e.element_type == element_kind(w.element_type, w.coordinate_indices@.len())
    &&& e.nodes@ == node_numbers(k as nat, w.coordinate_indices@.len())
}

/// The kind named by a type word (upper case) of a text model file.
pub open spec fn element_type_of(s: Seq<char>) -> ElementType {
    if s == "SHELL"@ || s == "PLATE"@ || s == "MEMBRANE"@ || s == "QUAD"@ || s == "TRIANGLE"@ {
        ElementType::Shell
    } else if s == "BEAM"@ || s == "BAR"@ || s == "TRUSS"@ || s == "FRAME"@ {
        ElementType::Beam
    } else if s == "COLUMN"@ || s == "PILLAR"@ {
        ElementType::Column
    } else {
        ElementType::Unknown
    }
}

/// The node numbers of a node list whose pieces (between commas, spaces and
/// tabs) are `ps`: the non-blank pieces read as `u32`, or the first piece
/// that does not read as one.
pub open spec fn read_node_numbers(ps: Seq<Seq<char>>) -> Result<Seq<u32>, Seq<char>>
    decreases ps.len(),
{
    if ps.len() == 0 {
        Ok(Seq::empty())
    } else {
        match read_node_numbers(ps.drop_last()) {
            Err(e) => Err(e),
            Ok(v) => {
                let t = trim(ps.last());
                if t.len() == 0 {
                    Ok(v)
                } else {
                    match parse_unsigned(t, u32::MAX as nat) {
                        Some(x) => Ok(v.push(x as u32)),
                        None => Err(t),
                    }
                }
            },
        }
    }
}

/// The characters between node numbers of a node list.
pub open spec fn node_list_separators() -> Seq<char> {
    seq![',', ' ', '\t']
}

/// The compiled regular expressions of the text format.
struct ParserRegexes {
    /// Node line: number and coordinates
    node_pattern: Pattern,
    /// Element line: number, type and nodes
    element_pattern: Pattern,
}

/// How the text of a model file is laid out.
#[derive(Debug, Clone, Copy, PartialEq, Eq, Structural)]
pub enum LiraFormat {
    /// Sections `[NODES]` and `[ELEMENTS]` of node and element lines
    Text,
    /// Numbered documents in parentheses
    Documents,
    /// Neither
    Unknown,
}

/// Whether `w` occurs in `s`.
pub open spec fn has_infix(s: Seq<char>, w: Seq<char>) -> bool {
    exists|i: int| 0 <= i && i + w.len() <= s.len() && #[trigger] s.subrange(i, i + w.len()) == w
}

/// The layout of a model file's text: a text model where `[NODES]` or
/// `[ELEMENTS]` occurs, else documents where both `(` and `)` occur.
pub open spec fn format_of(s: Seq<char>) -> LiraFormat {
    if has_infix(s, "[NODES]"@) || has_infix(s, "[ELEMENTS]"@) {
        LiraFormat::Text
    } else if s.contains('(') && s.contains(')') {
        LiraFormat::Documents
    } else {
        LiraFormat::Unknown
    }
}

/// Whether `w` occurs in `s`.
fn contains_text(s: &[char], w: &[char]) -> (r: bool)
    ensures
        r == has_infix(s@, w@),
{
    if w.len() > s.len() {
        return false;
    }
    let n = s.len();
    let last = n - w.len();
    let mut i: usize = 0;
    while i <= last
        invariant
            n == s@.len(),
            last + w@.len() == s@.len(),
            i <= last + 1,
            forall|j: int| 0 <= j < i ==> #[trigger] s@.subrange(j, j + w@.len()) != w@,
        decreases last + 1 - i,
    {
        let mut k: usize = 0;
        while k < w.len() && s[i + k] == w[k]
            invariant
                i <= last,
                n == s@.len(),
                last + w@.len() == s@.len(),
                k <= w@.len(),
                forall|t: int| 0 <= t < k ==> s@[i + t] == w@[t],
            decreases w@.len() - k,
        {
            k += 1;
        }
        if k == w.len() {
            proof {
                assert(s@.subrange(i as int, i + w@.len()) =~= w@);
            }
            return true;
        }
        proof {
            assert(s@.subrange(i as int, i + w@.len())[k as int] == s@[i + k]);
        }
        i += 1;
    }
    proof {
        assert forall|j: int| 0 <= j && j + w@.len() <= s@.len() implies #[trigger] s@.subrange(j, j + w@.len())
            != w@ by {
            assert(j < i);
        }
    }
    false
}

/// Whether `c` occurs in `s`.
fn contains_char_of(s: &[char], c: char) -> (r: bool)
    ensures
        r == s@.contains(c),
{
    let mut i: usize = 0;
    while i < s.len()
        invariant
            i <= s@.len(),
            forall|j: int| 0 <= j < i ==> s@[j] != c,
        decreases s@.len() - i,
    {
        if s[i] == c {
            return true;
        }
        i += 1;
    }
    false
}

/// The header of a binary LIRA-SAPR file: `$LIRA-SAPR`.
pub open spec fn lira_header() -> Seq<u8> {
    seq![36u8, 76u8, 73u8, 82u8, 65u8, 45u8, 83u8, 65u8, 80u8, 82u8]
}

/// Position of the first `b` in `data`; the length where there is none.
pub open spec fn index_of_byte(data: Seq<u8>, b: u8) -> nat
    decreases data.len(),
{
    if data.len() == 0 {
        0
    } else if data[0] == b {
        0
    } else {
        1 + index_of_byte(data.drop_first(), b)
    }
}

/// Where the text of binary data starts: after a `$LIRA-SAPR` header, at
/// the first `(`, where there is one; else at the beginning.
pub open spec fn data_start(data: Seq<u8>) -> int {
    if data.len() >= 10 && data.take(10) == lira_header() && index_of_byte(data, 40) < data.len() {
        index_of_byte(data, 40) as int
    } else {
        0
    }
}

proof fn lemma_index_of_byte(data: Seq<u8>, b: u8, k: int)
    requires
        0 <= k <= data.len(),
        forall|j: int| 0 <= j < k ==> data[j] != b,
        k == data.len() || data[k] == b,
    ensures
        index_of_byte(data, b) == k,
    decreases data.len(),
{
    if data.len() > 0 && k > 0 {
        assert forall|j: int| 0 <= j < k - 1 implies data.drop_first()[j] != b by {
            assert(data[j + 1] != b);
        }
        lemma_index_of_byte(data.drop_first(), b, k - 1);
    }
}

/// Reader of LIRA model files.
pub struct LirParser {
    regexes: ParserRegexes,
    /// Documents read by `parse_lira_documents`
    documents: Vec<WorkingProjectDocument>,
    /// Coordinates of document 4, after the placeholder numbered 0
    coordinates: Vec<CoordinateFields>,
    /// Elements of document 1 with every coordinate number that reads
    raw_elements: Vec<WorkingProjectElement>,
}

/// The kind of an element by its type code: 1 to 10 plates, 11 to 20 beams,
/// 21 to 30 columns.
pub open spec fn range_kind(code: u32) -> ElementType {
    if 1 <= code <= 10 {
        ElementType::Shell
    } else if 11 <= code <= 20 {
        ElementType::Beam
    } else if 21 <= code <= 30 {
        ElementType::Column
    } else {
        ElementType::Unknown
    }
}

/// The raw elements after the documents `docs` were read: those of document
/// 1, with every coordinate number that reads, where there is one.
pub open spec fn raw_elements_after(
    docs: Map<Seq<char>, Seq<char>>,
    before: Seq<(u32, u32, Seq<usize>)>,
) -> Seq<(u32, u32, Seq<usize>)> {
    if docs.contains_key(seq!['1']) {
        elements_of(docs[seq!['1']], None)
    } else {
        before
    }
}

/// The state of a text reading as values.
pub open spec fn scan_of(
    section: String,
    nodes: Seq<LiraNodeFields>,
    elements: Seq<LiraElement>,
    comments: Seq<String>,
) -> TextScan {
    TextScan {
        section: section@,
        nodes: nodes_view(nodes),
        elements: elements_view(elements),
        comments: comments.map_values(|c: String| c@),
    }
}

/// No node has connected elements yet.
pub open spec fn unconnected(nodes: Seq<LiraNodeFields>) -> bool {
    forall|i: int| 0 <= i < nodes.len() ==> (#[trigger] nodes[i]).connected_elements@.len() == 0
}

/// `p` is what a text model file named `filename` whose reading ended in
/// `st` gives: its elements, its nodes each with the elements that use it,
/// and its comments.
pub open spec fn text_result(p: ParseResult, st: TextScan, filename: Seq<char>) -> bool {
    &&& elements_view(p.elements@) == st.elements
    &&& nodes_view(p.nodes@) == st.nodes
    &&& forall|i: int|
        0 <= i < p.nodes@.len() ==> (#[trigger] p.nodes@[i]).connected_elements@ == ids_at_node(
            p.elements@,
            p.nodes@[i].id,
        )
    &&& p.metadata.filename@ == filename
    &&& p.metadata.lira_version is None
    &&& p.metadata.created_date is None
    &&& p.metadata.comments@.map_values(|c: String| c@) == st.comments
}

fn compile_regexes() -> (r: Result<ParserRegexes, LiraError>)
    ensures
        r is Ok <==> (regex_compiles(node_pattern()) && regex_compiles(element_pattern())),
        r matches Ok(x) ==> x.node_pattern.source() == node_pattern() && x.element_pattern.source()
            == element_pattern(),
        r matches Err(e) ==> e.kind == LiraErrorKind::Pattern,
{
    let node_text = node_pattern_text();
    let node = match compile_pattern(node_text) {
        Ok(p) => p,
        Err(_) => {
            return Err(LiraError { kind: LiraErrorKind::Pattern, text: node_text.to_owned() });
        },
    };
    let element_text = element_pattern_text();
    let element = match compile_pattern(element_text) {
        Ok(p) => p,
        Err(_) => {
            return Err(LiraError { kind: LiraErrorKind::Pattern, text: element_text.to_owned() });
        },
    };
    Ok(ParserRegexes { node_pattern: node, element_pattern: element })
}

/// The text of capture group `i`.
fn group_text(groups: &Vec<Option<String>>, i: usize) -> (r: &str)
    requires
        i < groups@.len(),
        groups@[i as int] is Some,
    ensures
        r@ == group_texts(groups@)[i as int]->0,
{
    match &groups[i] {
        Some(s) => s.as_str(),
        None => "",
    }
}

/// Reads a whole string as a `u32` as `str::parse` does.
fn parse_u32(s: &str) -> (r: Option<u32>)
    ensures
        r matches Some(v) ==> parse_unsigned(s@, u32::MAX as nat) == Some(v as nat),
        r is None ==> parse_unsigned(s@, u32::MAX as nat) is None,
{
    let chars = chars_of(s);
    proof {
        assert(chars@.subrange(0, chars@.len() as int) =~= s@);
    }
    match parse_unsigned_range(chars.as_slice(), 0, chars.len(), 0xFFFF_FFFF) {
        Some(v) => Some(v as u32),
        None => None,
    }
}

fn append_ids(dst: &mut Vec<u32>, src: &Vec<u32>)
    ensures
        final(dst)@ == old(dst)@ + src@,
{
    let mut i: usize = 0;
    while i < src.len()
        invariant
            i <= src@.len(),
            dst@ == old(dst)@ + src@.take(i as int),
        decreases src@.len() - i,
    {
        dst.push(src[i]);
        i += 1;
        proof {
            assert(dst@ =~= old(dst)@ + src@.take(i as int));
        }
    }
    proof {
        assert(src@.take(src@.len() as int) =~= src@);
    }
}

impl LirParser {
    /// The compiled expressions are those of the text format, and no two
    /// documents share a number.
    pub closed spec fn wf(&self) -> bool {
        &&& self.regexes.node_pattern.source() == node_pattern()
        &&& self.regexes.element_pattern.source() == element_pattern()
        &&& distinct_ids(self.documents@)
    }

    /// The documents read, by number.
    pub closed spec fn document_map(&self) -> Map<Seq<char>, Seq<char>> {
        doc_map(self.documents@)
    }

    /// The coordinates read.
    pub closed spec fn coordinates_view(&self) -> Seq<(Seq<char>, Seq<char>, Seq<char>)> {
        coords_view(self.coordinates@)
    }

    /// The raw elements read.
    pub closed spec fn raw_view(&self) -> Seq<(u32, u32, Seq<usize>)> {
        elems_view(self.raw_elements@)
    }

    /// Reads the documents of `content` afresh, then takes coordinates from
    /// document 4 and raw elements from document 1.
    pub fn parse_lira_documents(&mut self, content: &str) -> (r: Result<(), LiraError>)
        requires
            old(self).wf(),
        ensures
            r is Ok,
            final(self).wf(),
            final(self).document_map() == scan_lines(
                scan_start(Map::<Seq<char>, Seq<char>>::empty()),
                trimmed_lines(content@),
            ).docs,
            final(self).coordinates_view() == coordinates_after(
                final(self).document_map(),
                old(self).coordinates_view(),
            ),
            final(self).raw_view() == raw_elements_after(final(self).document_map(), old(self).raw_view()),
    {
        self.documents.clear();
        proof {
            assert(doc_map(self.documents@) =~= Map::<Seq<char>, Seq<char>>::empty());
        }
        read_document_lines(&mut self.documents, content);
        self.process_lira_documents()
    }

    /// Takes coordinates from document 4 and raw elements from document 1,
    /// where they are.
    pub fn process_lira_documents(&mut self) -> (r: Result<(), LiraError>)
        requires
            old(self).wf(),
        ensures
            r is Ok,
            final(self).wf(),
            final(self).document_map() == old(self).document_map(),
            final(self).coordinates_view() == coordinates_after(
                old(self).document_map(),
                old(self).coordinates_view(),
            ),
            final(self).raw_view() == raw_elements_after(old(self).document_map(), old(self).raw_view()),
    {
        proof {
            reveal_strlit("4");
            reveal_strlit("1");
        }
        let four = "4".to_owned();
        assert(four@ =~= seq!['4']);
        match find_document(&self.documents, &four) {
            Some(i) => {
                let text = self.documents[i].content.clone();
                let _ = self.parse_lira_coordinates(text.as_str());
            },
            None => {},
        }
        let one = "1".to_owned();
        assert(one@ =~= seq!['1']);
        match find_document(&self.documents, &one) {
            Some(i) => {
                let text = self.documents[i].content.clone();
                let _ = self.parse_lira_elements(text.as_str());
            },
            None => {},
        }
        Ok(())
    }

    /// Reads the coordinates of document 4 from its text.
    pub fn parse_lira_coordinates(&mut self, content: &str) -> (r: Result<(), LiraError>)
        requires
            old(self).wf(),
        ensures
            r is Ok,
            final(self).wf(),
            final(self).document_map() == old(self).document_map(),
            final(self).raw_view() == old(self).raw_view(),
            final(self).coordinates_view() == coordinates_of(content@),
    {
        self.coordinates = read_coordinates(content);
        Ok(())
    }

    /// Reads the elements of document 1 from its text, each with every
    /// coordinate number that reads as one.
    pub fn parse_lira_elements(&mut self, content: &str) -> (r: Result<(), LiraError>)
        requires
            old(self).wf(),
        ensures
            r is Ok,
            final(self).wf(),
            final(self).document_map() == old(self).document_map(),
            final(self).coordinates_view() == old(self).coordinates_view(),
            final(self).raw_view() == elements_of(content@, None),
    {
        self.raw_elements = read_elements(content, None);
        Ok(())
    }

    /// Number of raw elements read.
    pub fn raw_element_count(&self) -> (n: usize)
        ensures
            n == self.raw_view().len(),
    {
        self.raw_elements.len()
    }

    /// The text of binary LIRA data: from the first `(` after a
    /// `$LIRA-SAPR` header (else from the beginning), decoded as UTF-8; where
    /// that fails, decoded with replacement characters, which is accepted
    /// only when it holds both `(` and `)`.
    pub fn try_decode_binary(&self, data: &[u8]) -> (r: Result<String, LiraError>)
        ensures
            vstd::utf8::valid_utf8(data@.skip(data_start(data@))) ==> (r matches Ok(s) && s@
                == vstd::utf8::decode_utf8(data@.skip(data_start(data@)))),
            !vstd::utf8::valid_utf8(data@.skip(data_start(data@))) ==> {
                let lossy = crate::decoding::lossy_utf8(data@.skip(data_start(data@)));
                if lossy.contains('(') && lossy.contains(')') {
                    r matches Ok(s) && s@ == lossy
                } else {
                    r matches Err(e) && e.kind == LiraErrorKind::Undecodable
                }
            },
    {
        let mut header = true;
        if data.len() >= 10 {
            let expected: [u8; 10] = [36, 76, 73, 82, 65, 45, 83, 65, 80, 82];
            let mut i: usize = 0;
            while i < 10
                invariant
                    i <= 10,
                    data@.len() >= 10,
                    expected@ == lira_header(),
                    header == forall|j: int| 0 <= j < i ==> data@[j] == expected@[j],
                decreases 10 - i,
            {
                if data[i] != expected[i] {
                    header = false;
                }
                i += 1;
            }
            proof {
                assert(expected@ =~= lira_header());
                if header {
                    assert(data@.take(10) =~= lira_header());
                } else {
                    let j = choose|j: int| 0 <= j < 10 && data@[j] != expected@[j];
                    assert(data@.take(10)[j] != lira_header()[j]);
                }
            }
        } else {
            header = false;
        }
        let mut start: usize = 0;
        if header {
            let mut p: usize = 0;
            while p < data.len() && data[p] != 40
                invariant
                    p <= data@.len(),
                    forall|j: int| 0 <= j < p ==> data@[j] != 40,
                decreases data@.len() - p,
            {
                p += 1;
            }
            proof {
                lemma_index_of_byte(data@, 40, p as int);
            }
            if p < data.len() {
                start = p;
            }
        }
        assert(start == data_start(data@));
        let slice = &data[start..data.len()];
        assert(slice@ =~= data@.skip(start as int));
        match crate::decoding::string_from_utf8(slice) {
            Some(content) => Ok(content),
            None => {
                let content = crate::decoding::string_from_utf8_lossy(slice);
                let chars = chars_of(content.as_str());
                if contains_char_of(chars.as_slice(), '(') && contains_char_of(chars.as_slice(), ')') {
                    Ok(content)
                } else {
                    Err(LiraError { kind: LiraErrorKind::Undecodable, text: String::new() })
                }
            },
        }
    }

    /// The raw elements for the connectivity analysis: element `k` takes
    /// number `k + 1`, a kind from the range of its type code, and its
    /// coordinate numbers as node numbers (cut to 32 bits).
    pub fn convert_to_lira_elements(&self) -> (r: Result<Vec<LiraElement>, LiraError>)
        requires
            self.raw_view().len() <= u32::MAX,
        ensures
            r matches Ok(v) && v@.len() == self.raw_view().len() && forall|k: int|
                0 <= k < v@.len() ==> (#[trigger] v@[k]).id == k + 1 && v@[k].element_type
                    == range_kind(self.raw_view()[k].0) && v@[k].nodes@ == self.raw_view()[k].2.map_values(
                    |i: usize| i as u32,
                ),
    {
        let raw = &self.raw_elements;
        let mut elements: Vec<LiraElement> = Vec::new();
        let mut id: usize = 0;
        while id < raw.len()
            invariant
                id <= raw@.len(),
                raw == &self.raw_elements,
                raw@.len() <= u32::MAX,
                elements@.len() == id,
                forall|k: int|
                    0 <= k < id ==> (#[trigger] elements@[k]).id == k + 1 && elements@[k].element_type
                        == range_kind(elems_view(raw@)[k].0) && elements@[k].nodes@ == elems_view(
                        raw@,
                    )[k].2.map_values(|i: usize| i as u32),
            decreases raw@.len() - id,
        {
            let e = &raw[id];
            let code = e.element_type;
            let kind = if 1 <= code && code <= 10 {
                ElementType::Shell
            } else if 11 <= code && code <= 20 {
                ElementType::Beam
            } else if 21 <= code && code <= 30 {
                ElementType::Column
            } else {
                ElementType::Unknown
            };
            let mut nodes: Vec<u32> = Vec::new();
            let mut i: usize = 0;
            while i < e.coordinate_indices.len()
                invariant
                    i <= e.coordinate_indices@.len(),
                    nodes@ == e.coordinate_indices@.take(i as int).map_values(|x: usize| x as u32),
                decreases e.coordinate_indices@.len() - i,
            {
                nodes.push(e.coordinate_indices[i] as u32);
                i += 1;
                proof {
                    assert(nodes@ =~= e.coordinate_indices@.take(i as int).map_values(|x: usize| x as u32));
                }
            }
            proof {
                assert(e.coordinate_indices@.take(i as int) =~= e.coordinate_indices@);
                assert(elems_view(raw@)[id as int] == elem_view(raw@[id as int]));
            }
            elements.push(LiraElement { id: id as u32 + 1, element_type: kind, nodes });
            id += 1;
        }
        Ok(elements)
    }

    /// Nothing has been read.
    pub closed spec fn is_fresh(&self) -> bool {
        &&& self.documents@.len() == 0
        &&& self.coordinates@.len() == 0
        &&& self.raw_elements@.len() == 0
    }

    /// A new reader, with the expressions of the text format compiled.
    pub fn new() -> (r: Result<Self, LiraError>)
        ensures
            r is Ok <==> (regex_compiles(node_pattern()) && regex_compiles(element_pattern())),
            r matches Ok(p) ==> p.wf() && p.is_fresh(),
            r matches Err(e) ==> e.kind == LiraErrorKind::Pattern,
    {
        match compile_regexes() {
            Ok(regexes) => Ok(
                LirParser {
                    regexes,
                    documents: Vec::new(),
                    coordinates: Vec::new(),
                    raw_elements: Vec::new(),
                },
            ),
            Err(e) => Err(e),
        }
    }

    /// Compiles the expressions of the text format anew.
    pub fn init_text_regexes(&mut self) -> (r: Result<(), LiraError>)
        requires
            old(self).wf(),
        ensures
            r is Ok <==> (regex_compiles(node_pattern()) && regex_compiles(element_pattern())),
            r matches Err(e) ==> e.kind == LiraErrorKind::Pattern,
            final(self).wf(),
            final(self).is_fresh() == old(self).is_fresh(),
    {
        match compile_regexes() {
            Ok(regexes) => {
                self.regexes = regexes;
                Ok(())
            },
            Err(e) => Err(e),
        }
    }

    /// The node of a node line whose capture groups are `groups`: the number
    /// from group 1 and the coordinates from groups 2 to 4.
    pub fn node_from_captures(&self, line: &str, groups: &Vec<Option<String>>) -> (r: Result<
        LiraNodeFields,
        LiraError,
    >)
        requires
            has_groups(group_texts(groups@), 4),
        ensures
            node_from_groups(line@, group_texts(groups@)) matches Ok(n) ==> r matches Ok(x)
                && node_view(x) == n && x.connected_elements@.len() == 0,
            node_from_groups(line@, group_texts(groups@)) matches Err(e) ==> r matches Err(x)
                && err_view(x) == e,
    {
        let ghost g = group_texts(groups@);
        assert(g[1] is Some && g[2] is Some && g[3] is Some && g[4] is Some);
        let id = match parse_u32(group_text(groups, 1)) {
            Some(v) => v,
            None => {
                return Err(LiraError { kind: LiraErrorKind::InvalidNodeId, text: line.to_owned() });
            },
        };
        let x = group_text(groups, 2);
        if !is_decimal_text(x) {
            return Err(LiraError { kind: LiraErrorKind::InvalidX, text: line.to_owned() });
        }
        let y = group_text(groups, 3);
        if !is_decimal_text(y) {
            return Err(LiraError { kind: LiraErrorKind::InvalidY, text: line.to_owned() });
        }
        let z = group_text(groups, 4);
        if !is_decimal_text(z) {
            return Err(LiraError { kind: LiraErrorKind::InvalidZ, text: line.to_owned() });
        }
        Ok(
            LiraNodeFields {
                id,
                x: x.to_owned(),
                y: y.to_owned(),
                z: z.to_owned(),
                connected_elements: Vec::new(),
            },
        )
    }

    /// The element of an element line whose capture groups are `groups`:
    /// the number from group 1, the kind from the upper-cased group 2 and
    /// the nodes from the list of group 3.
    pub fn element_from_captures(&self, line: &str, groups: &Vec<Option<String>>) -> (r: Result<
        LiraElement,
        LiraError,
    >)
        requires
            has_groups(group_texts(groups@), 3),
        ensures
            element_from_groups(line@, group_texts(groups@)) matches Ok(e) ==> r matches Ok(x)
                && lira_view(x) == e,
            element_from_groups(line@, group_texts(groups@)) matches Err(e) ==> r matches Err(x)
                && err_view(x) == e,
    {
        let ghost g = group_texts(groups@);
        assert(g[1] is Some && g[2] is Some && g[3] is Some);
        let id = match parse_u32(group_text(groups, 1)) {
            Some(v) => v,
            None => {
                return Err(
                    LiraError { kind: LiraErrorKind::InvalidElementNumber, text: line.to_owned() },
                );
            },
        };
        let type_str = uppercase(group_text(groups, 2));
        let element_type = self.parse_element_type(type_str.as_str());
        match self.parse_node_list(group_text(groups, 3)) {
            Ok(nodes) => Ok(LiraElement { id, element_type, nodes }),
            Err(_) => Err(LiraError { kind: LiraErrorKind::InvalidNodeList, text: line.to_owned() }),
        }
    }

    /// Reads a line as a node line: nothing where the node pattern does not
    /// match it.
    pub fn parse_node_line(&self, line: &str) -> (r: Result<Option<LiraNodeFields>, LiraError>)
        requires
            self.wf(),
        ensures
            node_line(line@) is None ==> r matches Ok(None),
            node_line(line@) matches Some(Ok(n)) ==> r matches Ok(Some(x)) && node_view(x) == n
                && x.connected_elements@.len() == 0,
            node_line(line@) matches Some(Err(e)) ==> r matches Err(x) && err_view(x) == e,
    {
        match captures(&self.regexes.node_pattern, line) {
            None => Ok(None),
            Some(groups) => {
                if !(groups.len() > 4 && groups[1].is_some() && groups[2].is_some() && groups[3].is_some()
                    && groups[4].is_some()) {
                    proof {
                        let g = group_texts(groups@);
                        if has_groups(g, 4) {
                            assert(g[1] is Some && g[2] is Some && g[3] is Some && g[4] is Some);
                        }
                    }
                    return Ok(None);
                }
                proof {
                    let g = group_texts(groups@);
                    assert forall|i: int| 1 <= i <= 4 implies #[trigger] g[i] is Some by {
                        assert(groups@[i] is Some);
                    }
                }
                match self.node_from_captures(line, &groups) {
                    Ok(n) => Ok(Some(n)),
                    Err(e) => Err(e),
                }
            },
        }
    }

    /// Reads a line as an element line: nothing where the element pattern
    /// does not match it.
    pub fn parse_element_line(&self, line: &str) -> (r: Result<Option<LiraElement>, LiraError>)
        requires
            self.wf(),
        ensures
            element_line(line@) is None ==> r matches Ok(None),
            element_line(line@) matches Some(Ok(e)) ==> r matches Ok(Some(x)) && lira_view(x) == e,
            element_line(line@) matches Some(Err(e)) ==> r matches Err(x) && err_view(x) == e,
    {
        match captures(&self.regexes.element_pattern, line) {
            None => Ok(None),
            Some(groups) => {
                if !(groups.len() > 3 && groups[1].is_some() && groups[2].is_some() && groups[3].is_some()) {
                    proof {
                        let g = group_texts(groups@);
                        if has_groups(g, 3) {
                            assert(g[1] is Some && g[2] is Some && g[3] is Some);
                        }
                    }
                    return Ok(None);
                }
                proof {
                    let g = group_texts(groups@);
                    assert forall|i: int| 1 <= i <= 3 implies #[trigger] g[i] is Some by {
                        assert(groups@[i] is Some);
                    }
                }
                match self.element_from_captures(line, &groups) {
                    Ok(e) => Ok(Some(e)),
                    Err(e) => Err(e),
                }
            },
        }
    }

    /// Takes the trimmed line `chars[lo..hi]` of a text model into the
    /// reading.
    fn take_text_line(
        &self,
        chars: &[char],
        lo: usize,
        hi: usize,
        section: &mut String,
        nodes: &mut Vec<LiraNodeFields>,
        elements: &mut Vec<LiraElement>,
        comments: &mut Vec<String>,
    ) -> (r: Result<(), LiraError>)
        requires
            self.wf(),
            lo <= hi <= chars@.len(),
            distinct_nodes(nodes_view(old(nodes)@)),
            unconnected(old(nodes)@),
        ensures
            text_line(
                scan_of(*old(section), old(nodes)@, old(elements)@, old(comments)@),
                chars@.subrange(lo as int, hi as int),
            ) matches Ok(st) ==> r is Ok && scan_of(
                *final(section),
                final(nodes)@,
                final(elements)@,
                final(comments)@,
            ) == st,
            text_line(
                scan_of(*old(section), old(nodes)@, old(elements)@, old(comments)@),
                chars@.subrange(lo as int, hi as int),
            ) matches Err(e) ==> r matches Err(x) && err_view(x) == e,
            distinct_nodes(nodes_view(final(nodes)@)),
            unconnected(final(nodes)@),
    {
        let ghost st = scan_of(*section, nodes@, elements@, comments@);
        let ghost l = chars@.subrange(lo as int, hi as int);
        if lo == hi {
            return Ok(());
        }
        match comment_range(chars, lo, hi) {
            Some((a, b)) => {
                let ghost before = comments@;
                comments.push(string_of_range(chars, a, b));
                proof {
                    assert(comments@.map_values(|c: String| c@) =~= before.map_values(|c: String| c@).push(
                        chars@.subrange(a as int, b as int),
                    ));
                }
                return Ok(());
            },
            None => {},
        }
        match section_range(chars, lo, hi) {
            Some((a, b)) => {
                *section = string_of_range(chars, a, b);
                return Ok(());
            },
            None => {},
        }
        let line = string_of_range(chars, lo, hi);
        proof {
            reveal_strlit("NODES");
            reveal_strlit("NODE");
            reveal_strlit("ELEMENTS");
            reveal_strlit("ELEMENT");
        }
        let in_nodes = same_text(section.as_str(), "NODES") || same_text(section.as_str(), "NODE");
        let in_elements = same_text(section.as_str(), "ELEMENTS") || same_text(
            section.as_str(),
            "ELEMENT",
        );
        if in_nodes {
            match self.parse_node_line(line.as_str()) {
                Err(e) => Err(e),
                Ok(None) => Ok(()),
                Ok(Some(n)) => {
                    upsert_node_fields(nodes, n);
                    Ok(())
                },
            }
        } else if in_elements {
            match self.parse_element_line(line.as_str()) {
                Err(e) => Err(e),
                Ok(None) => Ok(()),
                Ok(Some(e)) => {
                    let ghost before = elements@;
                    let ghost ev = lira_view(e);
                    elements.push(e);
                    proof {
                        assert(elements_view(elements@) =~= elements_view(before).push(ev));
                    }
                    Ok(())
                },
            }
        } else {
            match self.parse_node_line(line.as_str()) {
                Err(e) => Err(e),
                Ok(Some(n)) => {
                    upsert_node_fields(nodes, n);
                    Ok(())
                },
                Ok(None) => match self.parse_element_line(line.as_str()) {
                    Err(e) => Err(e),
                    Ok(None) => Ok(()),
                    Ok(Some(e)) => {
                        let ghost before = elements@;
                        let ghost ev = lira_view(e);
                        elements.push(e);
                        proof {
                            assert(elements_view(elements@) =~= elements_view(before).push(ev));
                        }
                        Ok(())
                    },
                },
            }
        }
    }

    /// Adds to each node the numbers of the elements that use it, once per
    /// use, in element order.
    fn update_node_connections(&self, nodes: &mut Vec<LiraNodeFields>, elements: &[LiraElement])
        ensures
            final(nodes)@.len() == old(nodes)@.len(),
            nodes_view(final(nodes)@) == nodes_view(old(nodes)@),
            forall|i: int|
                0 <= i < final(nodes)@.len() ==> (#[trigger] final(nodes)@[i]).connected_elements@
                    == old(nodes)@[i].connected_elements@ + ids_at_node(elements@, old(nodes)@[i].id),
    {
        let mut index = GraphAnalyzer::new();
        index.build_node_index(elements);
        let mut out: Vec<LiraNodeFields> = Vec::new();
        let mut i: usize = 0;
        while i < nodes.len()
            invariant
                i <= nodes@.len(),
                nodes@ == old(nodes)@,
                index.wf(),
                index.index_view() == node_index(elements@),
                out@.len() == i,
                forall|j: int| 0 <= j < i ==> node_view(#[trigger] out@[j]) == node_view(nodes@[j]),
                forall|j: int|
                    0 <= j < i ==> (#[trigger] out@[j]).connected_elements@ == nodes@[j].connected_elements@
                        + ids_at_node(elements@, nodes@[j].id),
            decreases nodes@.len() - i,
        {
            let n = &nodes[i];
            let mut conn: Vec<u32> = Vec::new();
            append_ids(&mut conn, &n.connected_elements);
            match index.elements_at_node(n.id) {
                Some(l) => {
                    append_ids(&mut conn, l);
                },
                None => {
                    proof {
                        lemma_no_ids_unused(elements@, n.id);
                        assert(conn@ =~= n.connected_elements@ + ids_at_node(elements@, n.id));
                    }
                },
            }
            out.push(
                LiraNodeFields {
                    id: n.id,
                    x: n.x.clone(),
                    y: n.y.clone(),
                    z: n.z.clone(),
                    connected_elements: conn,
                },
            );
            i += 1;
        }
        proof {
            assert(nodes_view(out@) =~= nodes_view(old(nodes)@));
        }
        *nodes = out;
    }

    /// Reads a text model file: line by line, trimmed, as `text_line` says;
    /// then gives each node the elements that use it.
    pub fn parse_text_content(&mut self, content: &str, filename: String) -> (r: Result<
        ParseResult,
        LiraError,
    >)
        requires
            old(self).wf(),
        ensures
            *final(self) == *old(self),
            text_lines(text_start(), trimmed_lines(content@)) matches Ok(st) ==> r matches Ok(p)
                && text_result(p, st, filename@),
            text_lines(text_start(), trimmed_lines(content@)) matches Err(e) ==> r matches Err(x)
                && err_view(x) == e,
    {
        let chars = chars_of(content);
        let newline = ['\n'];
        let ranges = split_ranges(chars.as_slice(), 0, chars.len(), &newline, false);
        let ghost split = pieces_of(chars@, ranges@);
        proof {
            assert(newline@ =~= seq!['\n']);
            assert(chars@.subrange(0, chars@.len() as int) =~= content@);
            lemma_split_when_len(content@, separator(false, seq!['\n']));
        }
        let mut count = ranges.len();
        if ranges[count - 1].0 == ranges[count - 1].1 {
            count -= 1;
        }
        let ghost ls = trimmed_lines(content@);
        proof {
            assert(split.last().len() == ranges@[split.len() - 1].1 - ranges@[split.len() - 1].0);
            assert(ls.len() == count);
            assert(ls.take(0) =~= Seq::<Seq<char>>::empty());
        }
        let mut section = String::new();
        let mut nodes: Vec<LiraNodeFields> = Vec::new();
        let mut elements: Vec<LiraElement> = Vec::new();
        let mut comments: Vec<String> = Vec::new();
        proof {
            assert(nodes_view(nodes@) =~= Seq::<(u32, Seq<char>, Seq<char>, Seq<char>)>::empty());
            assert(elements_view(elements@) =~= Seq::<(u32, ElementType, Seq<u32>)>::empty());
            assert(comments@.map_values(|c: String| c@) =~= Seq::<Seq<char>>::empty());
            assert(section@ =~= Seq::<char>::empty());
            assert(scan_of(section, nodes@, elements@, comments@) == text_start());
        }
        let mut k: usize = 0;
        while k < count
            invariant
                k <= count <= ranges@.len(),
                count == ls.len(),
                ls == trimmed_lines(content@),
                split == pieces_of(chars@, ranges@),
                split == split_char(content@, '\n'),
                forall|j: int| 0 <= j < ranges@.len() ==> 0 <= (#[trigger] ranges@[j]).0 <= ranges@[j].1 <= chars@.len(),
                count == ranges@.len() || count == ranges@.len() - 1,
                self.wf(),
                *self == *old(self),
                distinct_nodes(nodes_view(nodes@)),
                unconnected(nodes@),
                text_lines(text_start(), ls.take(k as int)) == Ok::<TextScan, (LiraErrorKind, Seq<char>)>(
                    scan_of(section, nodes@, elements@, comments@),
                ),
            decreases count - k,
        {
            let (lo, hi) = ranges[k];
            let (a, b) = trim_bounds(chars.as_slice(), lo, hi);
            proof {
                assert(ls.take(k + 1).drop_last() =~= ls.take(k as int));
                assert(lines(content@)[k as int] == split[k as int]);
                assert(ls.take(k + 1).last() == chars@.subrange(a as int, b as int));
            }
            match self.take_text_line(
                chars.as_slice(),
                a,
                b,
                &mut section,
                &mut nodes,
                &mut elements,
                &mut comments,
            ) {
                Ok(()) => {},
                Err(e) => {
                    proof {
                        lemma_text_lines_err(ls, k as int + 1);
                    }
                    return Err(e);
                },
            }
            k += 1;
        }
        proof {
            assert(ls.take(count as int) =~= ls);
        }
        let ghost before = nodes@;
        self.update_node_connections(&mut nodes, elements.as_slice());
        proof {
            assert forall|i: int| 0 <= i < nodes@.len() implies (#[trigger] nodes@[i]).connected_elements@
                == ids_at_node(elements@, nodes@[i].id) by {
                assert(before[i].connected_elements@.len() == 0);
                assert(node_view(nodes@[i]) == nodes_view(nodes@)[i]);
                assert(node_view(before[i]) == nodes_view(before)[i]);
                assert(nodes@[i].connected_elements@ =~= ids_at_node(elements@, before[i].id));
            }
        }
        Ok(
            ParseResult {
                elements,
                nodes,
                metadata: FileMetadata {
                    filename,
                    lira_version: None,
                    created_date: None,
                    comments,
                },
            },
        )
    }

    /// The layout of a model file's text: sections `[NODES]` or
    /// `[ELEMENTS]` make a text model, else parentheses make documents.
    pub fn detect_format(content: &str) -> (f: LiraFormat)
        ensures
            f == format_of(content@),
    {
        let chars = chars_of(content);
        let nodes = chars_of("[NODES]");
        let elements = chars_of("[ELEMENTS]");
        if contains_text(chars.as_slice(), nodes.as_slice()) || contains_text(
            chars.as_slice(),
            elements.as_slice(),
        ) {
            LiraFormat::Text
        } else if contains_char_of(chars.as_slice(), '(') && contains_char_of(chars.as_slice(), ')') {
            LiraFormat::Documents
        } else {
            LiraFormat::Unknown
        }
    }

    /// Whether `convert_from_working_project` can number every element of
    /// `lira_file` within `u32`.
    pub fn node_numbers_fit(lira_file: &WorkingProjectLiraFile) -> (r: bool)
        ensures
            r == numbers_fit(lira_file.elements@),
    {
        let elems = &lira_file.elements;
        let mut k: usize = 0;
        while k < elems.len()
            invariant
                k <= elems@.len(),
                elems == &lira_file.elements,
                forall|j: int|
                    0 <= j < k ==> j * 10 + 1 + (#[trigger] elems@[j]).coordinate_indices@.len()
                        <= u32::MAX as int + 1,
            decreases elems@.len() - k,
        {
            let n = elems[k].coordinate_indices.len();
            if k > 429_496_729 {
                return false;
            }
            let limit: u64 = 0xFFFF_FFFF - (k as u64) * 10;
            if n as u64 > limit {
                return false;
            }
            k += 1;
        }
        true
    }

    /// The elements of a document file for the connectivity analysis:
    /// element `k` takes number `k + 1`, a kind from its type code (5 and 10
    /// are bars, 43 and 44 plates) or else from its number of coordinates (2
    /// a bar, 3 or 4 a plate), and nodes `10 k + 1`, `10 k + 2`, ... one per
    /// coordinate.
    pub fn convert_from_working_project(&self, lira_file: &WorkingProjectLiraFile) -> (r: Result<
        Vec<LiraElement>,
        LiraError,
    >)
        requires
            numbers_fit(lira_file.elements@),
        ensures
            r matches Ok(v) && v@.len() == lira_file.elements@.len() && forall|k: int|
                0 <= k < v@.len() ==> converted_element(
                    #[trigger] v@[k],
                    k,
                    lira_file.elements@[k],
                ),
    {
        let wp = lira_file.get_elements();
        let mut elements: Vec<LiraElement> = Vec::new();
        let mut id: usize = 0;
        while id < wp.len()
            invariant
                id <= wp@.len(),
                wp == &lira_file.elements,
                numbers_fit(wp@),
                elements@.len() == id,
                forall|k: int|
                    0 <= k < id ==> converted_element(#[trigger] elements@[k], k, wp@[k]),
            decreases wp@.len() - id,
        {
            let w = &wp[id];
            let count = w.coordinate_indices.len();
            assert(id * 10 + 1 + w.coordinate_indices@.len() <= u32::MAX as int + 1);
            let kind = if w.element_type == 5 || w.element_type == 10 {
                ElementType::Beam
            } else if w.element_type == 43 || w.element_type == 44 {
                ElementType::Shell
            } else if count == 2 {
                ElementType::Beam
            } else if count == 3 || count == 4 {
                ElementType::Shell
            } else {
                ElementType::Unknown
            };
            let base = (id * 10) as u32 + 1;
            let mut nodes: Vec<u32> = Vec::new();
            let mut i: usize = 0;
            while i < count
                invariant
                    i <= count,
                    count == w.coordinate_indices@.len(),
                    base == id * 10 + 1,
                    id * 10 + 1 + count <= u32::MAX as int + 1,
                    nodes@ =~= node_numbers(id as nat, count as nat).take(i as int),
                decreases count - i,
            {
                nodes.push(base + i as u32);
                i += 1;
            }
            proof {
                assert(nodes@ =~= node_numbers(id as nat, count as nat));
            }
            elements.push(LiraElement { id: id as u32 + 1, element_type: kind, nodes });
            id += 1;
        }
        Ok(elements)
    }

    /// The kind named by an (upper case) type word of a text model file.
    pub fn parse_element_type(&self, type_str: &str) -> (t: ElementType)
        ensures
            t == element_type_of(type_str@),
    {
        if same_text(type_str, "SHELL") || same_text(type_str, "PLATE") || same_text(
            type_str,
            "MEMBRANE",
        ) || same_text(type_str, "QUAD") || same_text(type_str, "TRIANGLE") {
            ElementType::Shell
        } else if same_text(type_str, "BEAM") || same_text(type_str, "BAR") || same_text(
            type_str,
            "TRUSS",
        ) || same_text(type_str, "FRAME") {
            ElementType::Beam
        } else if same_text(type_str, "COLUMN") || same_text(type_str, "PILLAR") {
            ElementType::Column
        } else {
            ElementType::Unknown
        }
    }

    /// The node numbers of a node list: the pieces between commas, spaces
    /// and tabs, trimmed, the blank ones left out, each read as a `u32`. The
    /// first piece that is not a `u32` is the error.
    pub fn parse_node_list(&self, nodes_str: &str) -> (r: Result<Vec<u32>, LiraError>)
        ensures
            read_node_numbers(split_when(nodes_str@, separator(false, node_list_separators())))
                matches Ok(v) ==> r matches Ok(w) && w@ == v,
            read_node_numbers(split_when(nodes_str@, separator(false, node_list_separators())))
                matches Err(t) ==> r matches Err(e) && err_view(e) == (
                LiraErrorKind::InvalidNodeNumber,
                t,
            ),
    {
        let chars = chars_of(nodes_str);
        let seps = [',', ' ', '\t'];
        let pieces = split_ranges(chars.as_slice(), 0, chars.len(), &seps, false);
        let ghost ps = pieces_of(chars@, pieces@);
        proof {
            assert(seps@ =~= node_list_separators());
            assert(chars@.subrange(0, chars@.len() as int) =~= nodes_str@);
            assert(ps.take(0) =~= Seq::<Seq<char>>::empty());
        }
        let mut ids: Vec<u32> = Vec::new();
        let mut k: usize = 0;
        while k < pieces.len()
            invariant
                k <= pieces@.len(),
                ps == pieces_of(chars@, pieces@),
                ps == split_when(nodes_str@, separator(false, node_list_separators())),
                forall|j: int| 0 <= j < pieces@.len() ==> 0 <= (#[trigger] pieces@[j]).0 <= pieces@[j].1 <= chars@.len(),
                read_node_numbers(ps.take(k as int)) == Ok::<Seq<u32>, Seq<char>>(ids@),
            decreases pieces@.len() - k,
        {
            let (a, b) = pieces[k];
            let (c, d) = trim_bounds(chars.as_slice(), a, b);
            proof {
                assert(ps.take(k + 1).drop_last() =~= ps.take(k as int));
                assert(ps.take(k + 1).last() == chars@.subrange(a as int, b as int));
            }
            if c < d {
                match parse_unsigned_range(chars.as_slice(), c, d, 0xFFFF_FFFF) {
                    Some(v) => {
                        ids.push(v as u32);
                    },
                    None => {
                        let text = string_of_range(chars.as_slice(), c, d);
                        proof {
                            assert(read_node_numbers(ps.take(k + 1)) == Err::<Seq<u32>, Seq<char>>(
                                chars@.subrange(c as int, d as int),
                            ));
                            lemma_read_node_numbers_err(ps, k as int + 1);
                            assert(ps.take(pieces@.len() as int) =~= ps);
                        }
                        return Err(LiraError { kind: LiraErrorKind::InvalidNodeNumber, text });
                    },
                }
            }
            k += 1;
        }
        proof {
            assert(ps.take(pieces@.len() as int) =~= ps);
        }
        Ok(ids)
    }
}

/// Once a prefix of the pieces fails, the whole list fails with the same
/// piece.
proof fn lemma_read_node_numbers_err(ps: Seq<Seq<char>>, k: int)
    requires
        0 <= k <= ps.len(),
        read_node_numbers(ps.take(k)) is Err,
    ensures
        read_node_numbers(ps) == read_node_numbers(ps.take(k)),
    decreases ps.len() - k,
{
    if k < ps.len() {
        assert(ps.take(k + 1).drop_last() =~= ps.take(k));
        lemma_read_node_numbers_err(ps, k + 1);
    } else {
        assert(ps.take(k) =~= ps);
    }
}

/// Once a prefix of the lines fails, the whole reading fails the same way.
proof fn lemma_text_lines_err(ls: Seq<Seq<char>>, k: int)
    requires
        0 <= k <= ls.len(),
        text_lines(text_start(), ls.take(k)) is Err,
    ensures
        text_lines(text_start(), ls) == text_lines(text_start(), ls.take(k)),
    decreases ls.len() - k,
{
    if k < ls.len() {
        assert(ls.take(k + 1).drop_last() =~= ls.take(k));
        lemma_text_lines_err(ls, k + 1);
    } else {
        assert(ls.take(k) =~= ls);
    }
}

/// The kind of an element of an SLI file by its `Type` attribute: `1` a
/// beam, `2` a plate.
pub open spec fn sli_kind(t: Seq<char>) -> ElementType {
    if t == "1"@ {
        ElementType::Beam
    } else if t == "2"@ {
        ElementType::Shell
    } else {
        ElementType::Unknown
    }
}

/// The node numbers of a `Nodes` entry of an SLI file: each attribute value
/// read as a `u32`, 0 where it does not read, and the zeros left out.
pub open spec fn sli_node_numbers(values: Seq<Seq<char>>) -> Seq<u32>
    decreases values.len(),
{
    if values.len() == 0 {
        Seq::empty()
    } else {
        let prev = sli_node_numbers(values.drop_last());
        match parse_unsigned(values.last(), u32::MAX as nat) {
            Some(v) => if v > 0 {
                prev.push(v as u32)
            } else {
                prev
            },
            None => prev,
        }
    }
}

/// The elements of an SLI file, built entry by entry.
pub struct SliElements {
    pub elements: Vec<LiraElement>,
}

impl SliElements {
    /// No elements yet.
    pub fn new() -> (s: Self)
        ensures
            s.elements@.len() == 0,
    {
        SliElements { elements: Vec::new() }
    }

    /// An `Element` entry: a new element numbered after the ones before,
    /// of the kind its `Type` attribute names, with no nodes yet.
    pub fn start_element(&mut self, type_attr: &str)
        requires
            old(self).elements@.len() < u32::MAX,
        ensures
            final(self).elements@.len() == old(self).elements@.len() + 1,
            final(self).elements@.drop_last() == old(self).elements@,
            final(self).elements@.last().id == old(self).elements@.len() + 1,
            final(self).elements@.last().element_type == sli_kind(type_attr@),
            final(self).elements@.last().nodes@.len() == 0,
    {
        proof {
            reveal_strlit("1");
            reveal_strlit("2");
        }
        let element_type = if same_text(type_attr, "1") {
            ElementType::Beam
        } else if same_text(type_attr, "2") {
            ElementType::Shell
        } else {
            ElementType::Unknown
        };
        let id = self.elements.len() as u32 + 1;
        let ghost before = self.elements@;
        self.elements.push(LiraElement { id, element_type, nodes: Vec::new() });
        proof {
            assert(self.elements@.drop_last() =~= before);
        }
    }

    /// A `Nodes` entry: the last element, where there is one, takes the node
    /// numbers of the attribute values.
    pub fn set_nodes(&mut self, values: &Vec<String>)
        ensures
            final(self).elements@.len() == old(self).elements@.len(),
            old(self).elements@.len() > 0 ==> final(self).elements@.drop_last()
                == old(self).elements@.drop_last() && final(self).elements@.last().id
                == old(self).elements@.last().id && final(self).elements@.last().element_type
                == old(self).elements@.last().element_type && final(self).elements@.last().nodes@
                == sli_node_numbers(values@.map_values(|v: String| v@)),
            old(self).elements@.len() == 0 ==> final(self).elements@ == old(self).elements@,
    {
        let n = self.elements.len();
        if n == 0 {
            return;
        }
        let ghost vs = values@.map_values(|v: String| v@);
        let mut nodes: Vec<u32> = Vec::new();
        let mut i: usize = 0;
        proof {
            assert(vs.take(0) =~= Seq::<Seq<char>>::empty());
        }
        while i < values.len()
            invariant
                i <= values@.len(),
                vs == values@.map_values(|v: String| v@),
                nodes@ == sli_node_numbers(vs.take(i as int)),
            decreases values@.len() - i,
        {
            proof {
                assert(vs.take(i + 1).drop_last() =~= vs.take(i as int));
                assert(vs.take(i + 1).last() == values@[i as int]@);
            }
            match parse_u32(values[i].as_str()) {
                Some(v) => {
                    if v > 0 {
                        nodes.push(v);
                    }
                },
                None => {},
            }
            i += 1;
        }
        proof {
            assert(vs.take(values@.len() as int) =~= vs);
        }
        let last = LiraElement {
            id: self.elements[n - 1].id,
            element_type: self.elements[n - 1].element_type,
            nodes,
        };
        let ghost before = self.elements@;
        self.elements.set(n - 1, last);
        proof {
            assert(self.elements@.drop_last() =~= before.drop_last());
        }
    }
}

/// A converted element of a document file is a plate when its type code is
/// 43 or 44, or when the code is none of 5, 10, 43, 44 and it has three or
/// four coordinates; a beam when its code is 5 or 10, or when the code is
/// not 43 or 44 and it has two coordinates; and of unknown kind only when
/// neither its code nor its coordinate count tells.
pub proof fn law_document_element_kinds(e: LiraElement, k: int, w: WorkingProjectElement)
    requires
        converted_element(e, k, w),
    ensures
        ({
            let code = w.element_type;
            let n = w.coordinate_indices@.len();
            &&& (code == 43 || code == 44) ==> e.element_type == ElementType::Shell
            &&& (code != 5 && code != 10 && code != 43 && code != 44 && (n == 3 || n == 4))
                ==> e.element_type == ElementType::Shell
            &&& (code == 5 || code == 10) ==> e.element_type == ElementType::Beam
            &&& (code != 43 && code != 44 && n == 2) ==> e.element_type == ElementType::Beam
            &&& e.element_type != ElementType::Column
            &&& e.element_type == ElementType::Unknown <==> (code != 5 && code != 10 && code != 43
                && code != 44 && n != 2 && n != 3 && n != 4)
        }),
{
}

/// A raw element of binary data is a plate exactly when its type code lies
/// between 1 and 10, a beam exactly when between 11 and 20, a column exactly
/// when between 21 and 30, and of unknown kind otherwise.
pub proof fn law_type_code_ranges(code: u32)
    ensures
        range_kind(code) == ElementType::Shell <==> 1 <= code <= 10,
        range_kind(code) == ElementType::Beam <==> 11 <= code <= 20,
        range_kind(code) == ElementType::Column <==> 21 <= code <= 30,
        range_kind(code) == ElementType::Unknown <==> (code == 0 || code > 30),
{
}

/// A text with a section head `[NODES]` or `[ELEMENTS]` is a text model,
/// whatever parentheses it also holds; a text is read as documents only when
/// it holds both `(` and `)` and no section head; and a text with neither is
/// of unknown layout.
pub proof fn law_section_heads_decide_format(s: Seq<char>)
    ensures
        (has_infix(s, "[NODES]"@) || has_infix(s, "[ELEMENTS]"@)) ==> format_of(s)
            == LiraFormat::Text,
        format_of(s) == LiraFormat::Text ==> (has_infix(s, "[NODES]"@) || has_infix(
            s,
            "[ELEMENTS]"@,
        )),
        format_of(s) == LiraFormat::Documents <==> (!has_infix(s, "[NODES]"@) && !has_infix(
            s,
            "[ELEMENTS]"@,
        ) && s.contains('(') && s.contains(')')),
{
}

/// The type words of a text model file: SHELL, PLATE, MEMBRANE, QUAD and
/// TRIANGLE name plates, BEAM, BAR, TRUSS and FRAME beams, COLUMN and PILLAR
/// columns, and any other word an unknown kind.
pub proof fn law_type_words(s: Seq<char>)
    ensures
        (s == "SHELL"@ || s == "PLATE"@ || s == "MEMBRANE"@ || s == "QUAD"@ || s == "TRIANGLE"@)
            ==> element_type_of(s) == ElementType::Shell,
        (s == "BEAM"@ || s == "BAR"@ || s == "TRUSS"@ || s == "FRAME"@) ==> element_type_of(s)
            == ElementType::Beam,
        (s == "COLUMN"@ || s == "PILLAR"@) ==> element_type_of(s) == ElementType::Column,
        element_type_of(s) == ElementType::Unknown <==> !(s == "SHELL"@ || s == "PLATE"@ || s
            == "MEMBRANE"@ || s == "QUAD"@ || s == "TRIANGLE"@ || s == "BEAM"@ || s == "BAR"@ || s
            == "TRUSS"@ || s == "FRAME"@ || s == "COLUMN"@ || s == "PILLAR"@),
{
    reveal_strlit("SHELL");
    reveal_strlit("PLATE");
    reveal_strlit("MEMBRANE");
    reveal_strlit("QUAD");
    reveal_strlit("TRIANGLE");
    reveal_strlit("BEAM");
    reveal_strlit("BAR");
    reveal_strlit("TRUSS");
    reveal_strlit("FRAME");
    reveal_strlit("COLUMN");
    reveal_strlit("PILLAR");
    if s == "SHELL"@ {
        assert(s.len() == 5 && s[0] == 'S');
    }
    if s == "PLATE"@ {
        assert(s.len() == 5 && s[0] == 'P');
    }
    if s == "MEMBRANE"@ {
        assert(s.len() == 8 && s[0] == 'M');
    }
    if s == "QUAD"@ {
        assert(s.len() == 4 && s[0] == 'Q');
    }
    if s == "TRIANGLE"@ {
        assert(s.len() == 8 && s[0] == 'T');
    }
    if s == "BEAM"@ {
        assert(s.len() == 4 && s[0] == 'B');
    }
    if s == "BAR"@ {
        assert(s.len() == 3 && s[0] == 'B');
    }
    if s == "TRUSS"@ {
        assert(s.len() == 5 && s[0] == 'T');
    }
    if s == "FRAME"@ {
        assert(s.len() == 5 && s[0] == 'F');
    }
    if s == "COLUMN"@ {
        assert(s.len() == 6 && s[0] == 'C');
    }
    if s == "PILLAR"@ {
        assert(s.len() == 6 && s[0] == 'P');
    }
}

/// In an SLI file `Type="1"` is a beam, `Type="2"` a plate, and any other
/// value an unknown kind; no SLI element is a column.
pub proof fn law_sli_type_values(t: Seq<char>)
    ensures
        t == "1"@ ==> sli_kind(t) == ElementType::Beam,
        t == "2"@ ==> sli_kind(t) == ElementType::Shell,
        (t != "1"@ && t != "2"@) ==> sli_kind(t) == ElementType::Unknown,
        sli_kind(t) != ElementType::Column,
{
    reveal_strlit("1");
    reveal_strlit("2");
    assert("2"@[0] != "1"@[0]);
}

/// The text of binary data starts at its first `(` when the data begins with
/// the `$LIRA-SAPR` header and holds a `(`, and at its beginning otherwise.
pub proof fn law_binary_text_start(data: Seq<u8>)
    ensures
        0 <= data_start(data) <= data.len(),
        (data.len() >= 10 && data.take(10) == lira_header() && data.contains(40u8)) ==> (
        data[data_start(data)] == 40u8 && forall|j: int| 0 <= j < data_start(data) ==> data[j]
            != 40u8),
        !(data.len() >= 10 && data.take(10) == lira_header() && data.contains(40u8))
            ==> data_start(data) == 0,
{
    lemma_first_byte(data, 40u8);
}

/// `index_of_byte` finds the first occurrence, or gives the length.
proof fn lemma_first_byte(data: Seq<u8>, b: u8)
    ensures
        index_of_byte(data, b) <= data.len(),
        data.contains(b) <==> index_of_byte(data, b) < data.len(),
        index_of_byte(data, b) < data.len() ==> data[index_of_byte(data, b) as int] == b,
        forall|j: int| 0 <= j < index_of_byte(data, b) ==> data[j] != b,
    decreases data.len(),
{
    if data.len() > 0 && data[0] != b {
        let rest = data.drop_first();
        lemma_first_byte(rest, b);
        assert forall|j: int| 0 <= j < index_of_byte(data, b) implies data[j] != b by {
            if j > 0 {
                assert(data[j] == rest[j - 1]);
            }
        }
        if data.contains(b) {
            let k = choose|k: int| 0 <= k < data.len() && data[k] == b;
            assert(rest[k - 1] == b);
        }
        if index_of_byte(data, b) < data.len() {
            assert(data[index_of_byte(data, b) as int] == rest[index_of_byte(rest, b) as int]);
        }
    } else if data.len() > 0 {
        assert(data[0] == b);
    }
}

/// Elements converted from a document file share no node numbers as long
/// as the earlier one has at most ten coordinates: element `k` uses only the
/// numbers `10 k + 1` to `10 k + 10`.
pub proof fn law_converted_nodes_are_disjoint(
    elems: Seq<WorkingProjectElement>,
    converted: Seq<LiraElement>,
    j: int,
    k: int,
    n: u32,
)
    requires
        numbers_fit(elems),
        converted.len() == elems.len(),
        forall|i: int| 0 <= i < converted.len() ==> converted_element(#[trigger] converted[i], i, elems[i]),
        0 <= j < k < elems.len(),
        elems[j].coordinate_indices@.len() <= 10,
    ensures
        !(converted[j].nodes@.contains(n) && converted[k].nodes@.contains(n)),
{
    assert(converted_element(converted[j], j, elems[j]));
    assert(converted_element(converted[k], k, elems[k]));
    assert(j * 10 + 1 + elems[j].coordinate_indices@.len() <= u32::MAX as int + 1);
    assert(k * 10 + 1 + elems[k].coordinate_indices@.len() <= u32::MAX as int + 1);
    if converted[j].nodes@.contains(n) && converted[k].nodes@.contains(n) {
        let a = choose|a: int| 0 <= a < converted[j].nodes@.len() && converted[j].nodes@[a] == n;
        let b = choose|b: int| 0 <= b < converted[k].nodes@.len() && converted[k].nodes@[b] == n;
        assert(converted[j].nodes@[a] == (j * 10 + 1 + a) as u32);
        assert(converted[k].nodes@[b] == (k * 10 + 1 + b) as u32);
        assert(j * 10 + 1 + a < k * 10 + 1 + b);
    }
}

/// The connectivity analysis of a document file whose elements have at
/// most ten coordinates each finds only groups of one element: the node
/// numbers that `convert_from_working_project` gives never join two
/// elements.
pub proof fn law_converted_elements_are_isolated(
    elems: Seq<WorkingProjectElement>,
    converted: Seq<LiraElement>,
    groups: Seq<ConnectedGroup>,
    c: int,
)
    requires
        numbers_fit(elems),
        converted.len() == elems.len(),
        forall|i: int| 0 <= i < converted.len() ==> converted_element(#[trigger] converted[i], i, elems[i]),
        forall|i: int| 0 <= i < elems.len() ==> (#[trigger] elems[i]).coordinate_indices@.len() <= 10,
        components_hold(groups, analysed(converted), shares_node(analysed(converted))),
        0 <= c < groups.len(),
    ensures
        groups[c].elements@.len() == 1,
{
    let a = analysed(converted);
    assert forall|i: int, j: int, n: u32|
        0 <= i < a.len() && 0 <= j < a.len() && a[i].id != a[j].id && #[trigger] a[i].nodes@.contains(n)
            implies !#[trigger] a[j].nodes@.contains(n) by {
        assert(a[i] == converted[i] && a[j] == converted[j]);
        assert(converted_element(converted[i], i, elems[i]));
        assert(converted_element(converted[j], j, elems[j]));
        if i < j {
            assert(elems[i].coordinate_indices@.len() <= 10);
            law_converted_nodes_are_disjoint(elems, converted, i, j, n);
        } else {
            assert(elems[j].coordinate_indices@.len() <= 10);
            law_converted_nodes_are_disjoint(elems, converted, j, i, n);
        }
    }
    law_unlinked_elements_are_alone(groups, a, c);
}

} // verus!
