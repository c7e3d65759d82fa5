use crate::text::{
    chars_of, find_char, index_of_char, lemma_split_when_len, lines, parse_unsigned,
    parse_unsigned_range, pieces_of, split_char, split_ranges, string_of_range,
    strip_leading, strip_leading_bound, trim, trim_bounds, word_ranges, words,
};
use vstd::prelude::*;

verus! {

#[verifier::external_type_specification]
#[verifier::external_body]
pub struct ExIoError(std::io::Error);

/// A numbered document of a LIRA file: the text between `(number/` and the
/// closing `)`, its lines joined by `/`.
#[derive(Debug)]
pub struct WorkingProjectDocument {
    pub id: String,
    pub content: String,
}

/// Documents by number; a later document replaces an earlier one with the
/// same number.
pub open spec fn doc_map(docs: Seq<WorkingProjectDocument>) -> Map<Seq<char>, Seq<char>>
    decreases docs.len(),
{
    if docs.len() == 0 {
        Map::empty()
    } else {
        doc_map(docs.drop_last()).insert(docs.last().id@, docs.last().content@)
    }
}

/// No two documents share a number.
pub open spec fn distinct_ids(docs: Seq<WorkingProjectDocument>) -> bool {
    forall|i: int, j: int| 0 <= i < j < docs.len() ==> docs[i].id@ != docs[j].id@
}

proof fn lemma_doc_map_get(docs: Seq<WorkingProjectDocument>, i: int)
    requires
        distinct_ids(docs),
        0 <= i < docs.len(),
    ensures
        doc_map(docs).contains_key(docs[i].id@),
        doc_map(docs)[docs[i].id@] == docs[i].content@,
    decreases docs.len(),
{
    if i < docs.len() - 1 {
        lemma_doc_map_get(docs.drop_last(), i);
    }
}

proof fn lemma_doc_map_absent(docs: Seq<WorkingProjectDocument>, k: Seq<char>)
    requires
        forall|i: int| 0 <= i < docs.len() ==> docs[i].id@ != k,
    ensures
        !doc_map(docs).contains_key(k),
    decreases docs.len(),
{
    if docs.len() > 0 {
        lemma_doc_map_absent(docs.drop_last(), k);
    }
}

proof fn lemma_doc_map_update(docs: Seq<WorkingProjectDocument>, i: int, d: WorkingProjectDocument)
    requires
        distinct_ids(docs),
        0 <= i < docs.len(),
        docs[i].id@ == d.id@,
    ensures
        doc_map(docs.update(i, d)) == doc_map(docs).insert(d.id@, d.content@),
    decreases docs.len(),
{
    let u = docs.update(i, d);
    if i == docs.len() - 1 {
        assert(u.drop_last() =~= docs.drop_last());
        assert(doc_map(u) =~= doc_map(docs).insert(d.id@, d.content@));
    } else {
        assert(u.drop_last() =~= docs.drop_last().update(i, d));
        lemma_doc_map_update(docs.drop_last(), i, d);
        assert(docs.last().id@ != d.id@);
        assert(doc_map(u) =~= doc_map(docs).insert(d.id@, d.content@));
    }
}

/// Puts a document into `docs`, replacing the one with the same number.
fn insert_document(docs: &mut Vec<WorkingProjectDocument>, id: String, content: String)
    requires
        distinct_ids(old(docs)@),
    ensures
        distinct_ids(final(docs)@),
        doc_map(final(docs)@) == doc_map(old(docs)@).insert(id@, content@),
{
    let mut i: usize = 0;
    while i < docs.len()
        invariant
            i <= docs@.len(),
            docs@ == old(docs)@,
            distinct_ids(docs@),
            forall|j: int| 0 <= j < i ==> docs@[j].id@ != id@,
        decreases docs@.len() - i,
    {
        if docs[i].id == id {
            let d = WorkingProjectDocument { id, content };
            proof {
                lemma_doc_map_update(docs@, i as int, d);
            }
            docs.set(i, d);
            proof {
                assert forall|a: int, b: int| 0 <= a < b < docs@.len() implies docs@[a].id@
                    != docs@[b].id@ by {
                    assert(old(docs)@[a].id@ != old(docs)@[b].id@);
                }
            }
            return;
        }
        i += 1;
    }
    let ghost before = docs@;
    docs.push(WorkingProjectDocument { id, content });
    proof {
        assert(docs@.drop_last() =~= before);
        assert(docs@.last().id@ == id@);
        assert forall|a: int, b: int| 0 <= a < b < docs@.len() implies docs@[a].id@
            != docs@[b].id@ by {
            if b < docs@.len() - 1 {
                assert(before[a].id@ != before[b].id@);
            } else {
                assert(before[a].id@ != id@);
            }
        }
    }
}

/// Position in `docs` of the document numbered `id`.
pub(crate) fn find_document(docs: &Vec<WorkingProjectDocument>, id: &String) -> (r: Option<usize>)
    requires
        distinct_ids(docs@),
    ensures
        r is None <==> !doc_map(docs@).contains_key(id@),
        r matches Some(i) ==> i < docs@.len() && docs@[i as int].id@ == id@ && doc_map(docs@)[id@]
            == docs@[i as int].content@,
{
    let mut i: usize = 0;
    while i < docs.len()
        invariant
            i <= docs@.len(),
            distinct_ids(docs@),
            forall|j: int| 0 <= j < i ==> docs@[j].id@ != id@,
        decreases docs@.len() - i,
    {
        if docs[i].id == *id {
            proof {
                lemma_doc_map_get(docs@, i as int);
            }
            return Some(i);
        }
        i += 1;
    }
    proof {
        lemma_doc_map_absent(docs@, id@);
    }
    None
}

/// Where the reading of documents stands after some lines.
pub struct DocScan {
    /// Documents closed so far
    pub docs: Map<Seq<char>, Seq<char>>,
    /// Number of the open document
    pub current: Option<Seq<char>>,
    /// Text of the open document so far
    pub content: Seq<char>,
    /// No line of the open document has been taken yet
    pub first: bool,
}

/// Reading starts with no open document.
pub open spec fn scan_start(docs: Map<Seq<char>, Seq<char>>) -> DocScan {
    DocScan { docs, current: None, content: Seq::empty(), first: true }
}

/// A line that opens a document: `(` first and a `/` somewhere.
pub open spec fn opens_document(line: Seq<char>) -> bool {
    line.len() > 0 && line[0] == '(' && index_of_char(line, '/') < line.len()
}

/// The number of the document that `line` opens: what stands before the first
/// `/`, without its leading `(`.
pub open spec fn document_id(line: Seq<char>) -> Seq<char> {
    trim(strip_leading(trim(line.take(index_of_char(line, '/') as int)), '('))
}

/// The text that follows the first `/` of an opening line.
pub open spec fn document_head(line: Seq<char>) -> Seq<char> {
    trim(line.skip(index_of_char(line, '/') + 1int))
}

/// What one (trimmed) line does to the reading.
pub open spec fn scan_line(st: DocScan, line: Seq<char>) -> DocScan {
    if opens_document(line) {
        DocScan {
            docs: st.docs,
            current: Some(document_id(line)),
            content: document_head(line),
            first: document_head(line).len() == 0,
        }
    } else if line == seq![')'] && st.current is Some {
        DocScan {
            docs: st.docs.insert(st.current->0, trim(st.content)),
            current: None,
            content: Seq::empty(),
            first: true,
        }
    } else if st.current is Some {
        DocScan {
            docs: st.docs,
            current: st.current,
            content: (if st.first {
                st.content
            } else {
                st.content.push('/')
            }) + line,
            first: false,
        }
    } else {
        st
    }
}

/// The reading after the lines `ls`, one after the other.
pub open spec fn scan_lines(st: DocScan, ls: Seq<Seq<char>>) -> DocScan
    decreases ls.len(),
{
    if ls.len() == 0 {
        st
    } else {
        scan_line(scan_lines(st, ls.drop_last()), ls.last())
    }
}

/// The lines of `text`, each trimmed.
pub open spec fn trimmed_lines(text: Seq<char>) -> Seq<Seq<char>> {
    lines(text).map_values(|l: Seq<char>| trim(l))
}

/// The view of an optional string.
pub open spec fn opt_view(s: Option<String>) -> Option<Seq<char>> {
    match s {
        Some(x) => Some(x@),
        None => None,
    }
}

fn push_range(v: &mut Vec<char>, chars: &[char], lo: usize, hi: usize)
    requires
        lo <= hi <= chars@.len(),
    ensures
        final(v)@ == old(v)@ + chars@.subrange(lo as int, hi as int),
{
    let mut i = lo;
    while i < hi
        invariant
            lo <= i <= hi <= chars@.len(),
            v@ == old(v)@ + chars@.subrange(lo as int, i as int),
        decreases hi - i,
    {
        v.push(chars[i]);
        i += 1;
        proof {
            assert(v@ =~= old(v)@ + chars@.subrange(lo as int, i as int));
        }
    }
}

/// Takes one trimmed line, `chars[lo..hi]`, into the reading of the
/// documents `docs`.
fn process_line(
    docs: &mut Vec<WorkingProjectDocument>,
    chars: &[char],
    lo: usize,
    hi: usize,
    current: &mut Option<String>,
    content: &mut Vec<char>,
    first: &mut bool,
)
    requires
        lo <= hi <= chars@.len(),
        distinct_ids(old(docs)@),
    ensures
        distinct_ids(final(docs)@),
        (DocScan {
            docs: doc_map(final(docs)@),
            current: opt_view(*final(current)),
            content: final(content)@,
            first: *final(first),
        }) == scan_line(
            DocScan {
                docs: doc_map(old(docs)@),
                current: opt_view(*old(current)),
                content: old(content)@,
                first: *old(first),
            },
            chars@.subrange(lo as int, hi as int),
        ),
{
    let ghost line = chars@.subrange(lo as int, hi as int);
    if lo < hi && chars[lo] == '(' {
        let k = find_char(chars, lo, hi, '/');
        if k < hi {
            let (a, b) = trim_bounds(chars, lo, k);
            let a2 = strip_leading_bound(chars, a, b, '(');
            let (c, d) = trim_bounds(chars, a2, b);
            let (e, f) = trim_bounds(chars, k + 1, hi);
            proof {
                assert(line.take(k - lo) =~= chars@.subrange(lo as int, k as int));
                assert(line.skip(k - lo + 1) =~= chars@.subrange(k + 1, hi as int));
                assert(line[0] == chars@[lo as int]);
            }
            *current = Some(string_of_range(chars, c, d));
            content.clear();
            push_range(content, chars, e, f);
            *first = e == f;
            proof {
                assert(content@ =~= chars@.subrange(e as int, f as int));
            }
            return;
        }
    }
    proof {
        if line.len() > 0 {
            assert(line[0] == chars@[lo as int]);
        }
    }
    let is_close = hi - lo == 1 && chars[lo] == ')';
    proof {
        if hi - lo == 1 {
            assert(line[0] == chars@[lo as int]);
        }
        assert(is_close == (line =~= seq![')']));
    }
    if is_close && current.is_some() {
        let id = match current {
            Some(s) => s.clone(),
            None => String::new(),
        };
        let (a, b) = trim_bounds(content.as_slice(), 0, content.len());
        proof {
            assert(content@.subrange(0, content@.len() as int) =~= content@);
        }
        let text = string_of_range(content.as_slice(), a, b);
        insert_document(docs, id, text);
        *current = None;
        content.clear();
        *first = true;
    } else if current.is_some() {
        if !*first {
            content.push('/');
        }
        push_range(content, chars, lo, hi);
        *first = false;
    }
}

/// Reads `content` line by line into the documents `docs`: each
/// `(number/` line opens a document, a `)` line closes the open one, and the
/// lines between are joined by `/`.
pub(crate) fn read_document_lines(docs: &mut Vec<WorkingProjectDocument>, content: &str)
    requires
        distinct_ids(old(docs)@),
    ensures
        distinct_ids(final(docs)@),
        doc_map(final(docs)@) == scan_lines(scan_start(doc_map(old(docs)@)), trimmed_lines(content@)).docs,
{
    let chars = chars_of(content);
    let newline = ['\n'];
    let ranges = split_ranges(chars.as_slice(), 0, chars.len(), &newline, false);
    let ghost split = pieces_of(chars@, ranges@);
    proof {
        assert(chars@.subrange(0, chars@.len() as int) =~= content@);
        assert(newline@ =~= seq!['\n']);
        lemma_split_when_len(content@, crate::text::separator(false, seq!['\n']));
    }
    let mut count = ranges.len();
    if ranges[count - 1].0 == ranges[count - 1].1 {
        count -= 1;
    }
    let ghost ls = trimmed_lines(content@);
    proof {
        assert(split.last().len() == ranges@[split.len() - 1].1 - ranges@[split.len() - 1].0);
        assert(ls.len() == count);
        assert(ls.take(0) =~= Seq::<Seq<char>>::empty());
    }
    let ghost start = doc_map(old(docs)@);
    let mut current: Option<String> = None;
    let mut buf: Vec<char> = Vec::new();
    let mut first = true;
    let mut k: usize = 0;
    while k < count
        invariant
            k <= count <= ranges@.len(),
            count == ls.len(),
            ls == trimmed_lines(content@),
            split == pieces_of(chars@, ranges@),
            split == crate::text::split_char(content@, '\n'),
            forall|j: int| 0 <= j < ranges@.len() ==> 0 <= (#[trigger] ranges@[j]).0 <= ranges@[j].1 <= chars@.len(),
            count == ranges@.len() || count == ranges@.len() - 1,
            distinct_ids(docs@),
            (DocScan {
                docs: doc_map(docs@),
                current: opt_view(current),
                content: buf@,
                first,
            }) == scan_lines(scan_start(start), ls.take(k as int)),
        decreases count - k,
    {
        let (lo, hi) = ranges[k];
        let (a, b) = trim_bounds(chars.as_slice(), lo, hi);
        proof {
            assert(ls.take(k + 1).drop_last() =~= ls.take(k as int));
            assert(lines(content@)[k as int] == split[k as int]);
            assert(ls.take(k + 1).last() == chars@.subrange(a as int, b as int));
        }
        process_line(docs, chars.as_slice(), a, b, &mut current, &mut buf, &mut first);
        k += 1;
    }
    proof {
        assert(ls.take(count as int) =~= ls);
    }
}

/// The three fields of a coordinate line of document 4, as written.
#[derive(Debug)]
pub struct CoordinateFields {
    pub x: String,
    pub y: String,
    pub z: String,
}

/// An element line of document 1: its type code, its material and the
/// numbers of the coordinates it uses that exist.
#[derive(Debug)]
pub struct WorkingProjectElement {
    pub element_type: u32,
    pub material: u32,
    pub coordinate_indices: Vec<usize>,
}

/// The fields of a coordinate.
pub open spec fn coord_view(c: CoordinateFields) -> (Seq<char>, Seq<char>, Seq<char>) {
    (c.x@, c.y@, c.z@)
}

/// The fields of the coordinates of `v`.
pub open spec fn coords_view(v: Seq<CoordinateFields>) -> Seq<(Seq<char>, Seq<char>, Seq<char>)> {
    v.map_values(|c: CoordinateFields| coord_view(c))
}

/// Type code, material and coordinate numbers of an element.
pub open spec fn elem_view(e: WorkingProjectElement) -> (u32, u32, Seq<usize>) {
    (e.element_type, e.material, e.coordinate_indices@)
}

/// The records of the elements of `v`.
pub open spec fn elems_view(v: Seq<WorkingProjectElement>) -> Seq<(u32, u32, Seq<usize>)> {
    v.map_values(|e: WorkingProjectElement| elem_view(e))
}

/// The coordinate that takes number 0, before those of document 4.
pub open spec fn origin_record() -> (Seq<char>, Seq<char>, Seq<char>) {
    (seq!['0'], seq!['0'], seq!['0'])
}

/// The coordinates written in `pieces`: the first three words of each piece
/// that has at least three.
pub open spec fn coordinate_records(pieces: Seq<Seq<char>>) -> Seq<(Seq<char>, Seq<char>, Seq<char>)>
    decreases pieces.len(),
{
    if pieces.len() == 0 {
        Seq::empty()
    } else {
        let prev = coordinate_records(pieces.drop_last());
        let w = words(pieces.last());
        if w.len() >= 3 {
            prev.push((w[0], w[1], w[2]))
        } else {
            prev
        }
    }
}

/// The coordinates of document 4 with `content` as its text, after the one
/// numbered 0.
pub open spec fn coordinates_of(content: Seq<char>) -> Seq<(Seq<char>, Seq<char>, Seq<char>)> {
    seq![origin_record()] + coordinate_records(split_char(content, '/'))
}

/// A number that was read, or 0.
pub open spec fn or_zero(v: Option<nat>) -> nat {
    match v {
        Some(x) => x,
        None => 0,
    }
}

/// Whether a coordinate number is kept: with a bound `n`, when it lies
/// between 1 and `n - 1`; without one, always.
pub open spec fn within(v: nat, bound: Option<nat>) -> bool {
    match bound {
        Some(n) => 0 < v < n,
        None => true,
    }
}

/// The bound as a mathematical number.
pub open spec fn bound_view(bound: Option<usize>) -> Option<nat> {
    match bound {
        Some(n) => Some(n as nat),
        None => None,
    }
}

/// The coordinate numbers among the words `ws` that read as numbers and lie
/// within `bound`.
pub open spec fn kept_indices(ws: Seq<Seq<char>>, bound: Option<nat>) -> Seq<usize>
    decreases ws.len(),
{
    if ws.len() == 0 {
        Seq::empty()
    } else {
        let prev = kept_indices(ws.drop_last(), bound);
        match parse_unsigned(ws.last(), usize::MAX as nat) {
            Some(v) => if within(v, bound) {
                prev.push(v as usize)
            } else {
                prev
            },
            None => prev,
        }
    }
}

/// The element written as the words `w`, its coordinate numbers kept within
/// `bound`.
pub open spec fn element_record(w: Seq<Seq<char>>, bound: Option<nat>) -> (u32, u32, Seq<usize>) {
    (
        or_zero(parse_unsigned(w[0], u32::MAX as nat)) as u32,
        or_zero(parse_unsigned(w[1], u32::MAX as nat)) as u32,
        kept_indices(w.skip(2), bound),
    )
}

/// The elements written in `pieces`: one for each piece of at least two
/// words.
pub open spec fn element_records(pieces: Seq<Seq<char>>, bound: Option<nat>) -> Seq<(u32, u32, Seq<usize>)>
    decreases pieces.len(),
{
    if pieces.len() == 0 {
        Seq::empty()
    } else {
        let prev = element_records(pieces.drop_last(), bound);
        let w = words(pieces.last());
        if w.len() >= 2 {
            prev.push(element_record(w, bound))
        } else {
            prev
        }
    }
}

/// The elements of document 1 with `content` as its text, their coordinate
/// numbers kept within `bound`.
pub open spec fn elements_of(content: Seq<char>, bound: Option<nat>) -> Seq<(u32, u32, Seq<usize>)> {
    element_records(split_char(content, '/'), bound)
}

/// The coordinates after the documents `docs` were read: those of document 4
/// where there is one.
pub open spec fn coordinates_after(
    docs: Map<Seq<char>, Seq<char>>,
    before: Seq<(Seq<char>, Seq<char>, Seq<char>)>,
) -> Seq<(Seq<char>, Seq<char>, Seq<char>)> {
    if docs.contains_key(seq!['4']) {
        coordinates_of(docs[seq!['4']])
    } else {
        before
    }
}

/// The elements after the documents `docs` were read: those of document 1
/// where there is one.
pub open spec fn elements_after(
    docs: Map<Seq<char>, Seq<char>>,
    n: nat,
    before: Seq<(u32, u32, Seq<usize>)>,
) -> Seq<(u32, u32, Seq<usize>)> {
    if docs.contains_key(seq!['1']) {
        elements_of(docs[seq!['1']], Some(n))
    } else {
        before
    }
}

/// The documents, coordinates and elements of a LIRA file.
#[derive(Debug)]
pub struct WorkingProjectLiraFile {
    pub documents: Vec<WorkingProjectDocument>,
    pub coordinates: Vec<CoordinateFields>,
    pub elements: Vec<WorkingProjectElement>,
}

impl WorkingProjectLiraFile {
    /// No two documents share a number.
    pub open spec fn wf(&self) -> bool {
        distinct_ids(self.documents@)
    }

    /// The documents by number.
    pub open spec fn document_map(&self) -> Map<Seq<char>, Seq<char>> {
        doc_map(self.documents@)
    }

    /// An empty file.
    pub fn new() -> (f: Self)
        ensures
            f.wf(),
            f.document_map() == Map::<Seq<char>, Seq<char>>::empty(),
            f.coordinates@.len() == 0,
            f.elements@.len() == 0,
    {
        WorkingProjectLiraFile { documents: Vec::new(), coordinates: Vec::new(), elements: Vec::new() }
    }

    /// The document numbered `id`.
    pub fn document(&self, id: &str) -> (r: Option<&WorkingProjectDocument>)
        requires
            self.wf(),
        ensures
            r is None <==> !self.document_map().contains_key(id@),
            r matches Some(d) ==> d.id@ == id@ && d.content@ == self.document_map()[id@],
    {
        let key = id.to_owned();
        match find_document(&self.documents, &key) {
            Some(i) => Some(&self.documents[i]),
            None => None,
        }
    }

    /// Number of documents.
    pub fn document_count(&self) -> (n: usize)
        requires
            self.wf(),
        ensures
            n == self.document_map().len(),
    {
        proof {
            lemma_doc_map_len(self.documents@);
        }
        self.documents.len()
    }

    /// Reads `content` line by line: each `(number/` line opens a document,
    /// a `)` line closes the open one, and the lines between are joined by
    /// `/`. Then takes coordinates from document 4 and elements from document
    /// 1, where they are.
    pub fn parse_file_from_string(&mut self, content: &str) -> (r: Result<(), std::io::Error>)
        requires
            old(self).wf(),
        ensures
            r is Ok,
            final(self).wf(),
            final(self).document_map() == scan_lines(
                scan_start(old(self).document_map()),
                trimmed_lines(content@),
            ).docs,
            coords_view(final(self).coordinates@) == coordinates_after(
                final(self).document_map(),
                coords_view(old(self).coordinates@),
            ),
            elems_view(final(self).elements@) == elements_after(
                final(self).document_map(),
                final(self).coordinates@.len() as nat,
                elems_view(old(self).elements@),
            ),
    {
        read_document_lines(&mut self.documents, content);
        self.process_documents();
        Ok(())
    }

    /// Takes the coordinates from document 4 and the elements from document
    /// 1, where they are.
    fn process_documents(&mut self)
        requires
            old(self).wf(),
        ensures
            final(self).documents == old(self).documents,
            coords_view(final(self).coordinates@) == coordinates_after(
                old(self).document_map(),
                coords_view(old(self).coordinates@),
            ),
            elems_view(final(self).elements@) == elements_after(
                old(self).document_map(),
                final(self).coordinates@.len() as nat,
                elems_view(old(self).elements@),
            ),
    {
        proof {
            reveal_strlit("4");
            reveal_strlit("1");
        }
        let four = "4".to_owned();
        assert(four@ =~= seq!['4']);
        match find_document(&self.documents, &four) {
            Some(i) => {
                let text = self.documents[i].content.clone();
                self.parse_coordinates(text.as_str());
            },
            None => {},
        }
        let one = "1".to_owned();
        assert(one@ =~= seq!['1']);
        match find_document(&self.documents, &one) {
            Some(i) => {
                let text = self.documents[i].content.clone();
                self.parse_elements(text.as_str());
            },
            None => {},
        }
    }

    /// The elements read so far.
    pub fn get_elements(&self) -> (r: &Vec<WorkingProjectElement>)
        ensures
            r == &self.elements,
    {
        &self.elements
    }

    /// Reads the coordinates of document 4 from its text.
    fn parse_coordinates(&mut self, content: &str)
        ensures
            coords_view(final(self).coordinates@) == coordinates_of(content@),
            final(self).documents == old(self).documents,
            final(self).elements == old(self).elements,
    {
        self.coordinates = read_coordinates(content);
    }

    /// Reads the elements of document 1 from its text.
    fn parse_elements(&mut self, content: &str)
        ensures
            elems_view(final(self).elements@) == elements_of(
                content@,
                Some(old(self).coordinates@.len() as nat),
            ),
            final(self).documents == old(self).documents,
            final(self).coordinates == old(self).coordinates,
    {
        self.elements = read_elements(content, Some(self.coordinates.len()));
    }
}

/// The coordinates written in the text of document 4, after the placeholder
/// numbered 0.
pub fn read_coordinates(content: &str) -> (v: Vec<CoordinateFields>)
    ensures
        coords_view(v@) == coordinates_of(content@),
{
    let chars = chars_of(content);
    let slash = ['/'];
    let pieces = split_ranges(chars.as_slice(), 0, chars.len(), &slash, false);
    let ghost ps = pieces_of(chars@, pieces@);
    proof {
        assert(slash@ =~= seq!['/']);
        assert(chars@.subrange(0, chars@.len() as int) =~= content@);
        reveal_strlit("0");
    }
    let mut coordinates: Vec<CoordinateFields> = Vec::new();
    coordinates.push(
        CoordinateFields { x: "0".to_owned(), y: "0".to_owned(), z: "0".to_owned() },
    );
    let mut k: usize = 0;
    proof {
        assert(ps.take(0) =~= Seq::<Seq<char>>::empty());
        assert(coord_view(coordinates@[0]) == origin_record());
        assert(coords_view(coordinates@) =~= seq![origin_record()] + coordinate_records(
            ps.take(0),
        ));
    }
    while k < pieces.len()
        invariant
            k <= pieces@.len(),
            ps == pieces_of(chars@, pieces@),
            ps == split_char(content@, '/'),
            forall|j: int| 0 <= j < pieces@.len() ==> 0 <= (#[trigger] pieces@[j]).0 <= pieces@[j].1 <= chars@.len(),
            coords_view(coordinates@) == seq![origin_record()] + coordinate_records(ps.take(k as int)),
        decreases pieces@.len() - k,
    {
        let (a, b) = pieces[k];
        let ws = word_ranges(chars.as_slice(), a, b);
        let ghost w = pieces_of(chars@, ws@);
        proof {
            assert(ps.take(k + 1).drop_last() =~= ps.take(k as int));
            assert(ps.take(k + 1).last() == chars@.subrange(a as int, b as int));
        }
        if ws.len() >= 3 {
            let x = string_of_range(chars.as_slice(), ws[0].0, ws[0].1);
            let y = string_of_range(chars.as_slice(), ws[1].0, ws[1].1);
            let z = string_of_range(chars.as_slice(), ws[2].0, ws[2].1);
            let ghost before = coordinates@;
            coordinates.push(CoordinateFields { x, y, z });
            proof {
                assert(w[0] == chars@.subrange(ws@[0].0 as int, ws@[0].1 as int));
                assert(coords_view(coordinates@) =~= coords_view(before).push((w[0], w[1], w[2])));
            }
        }
        k += 1;
    }
    proof {
        assert(ps.take(pieces@.len() as int) =~= ps);
    }
    coordinates
}

/// The elements written in the text of document 1, their coordinate numbers
/// kept within `bound`.
pub fn read_elements(content: &str, bound: Option<usize>) -> (v: Vec<WorkingProjectElement>)
    ensures
        elems_view(v@) == elements_of(content@, bound_view(bound)),
{
    let chars = chars_of(content);
    let slash = ['/'];
    let pieces = split_ranges(chars.as_slice(), 0, chars.len(), &slash, false);
    let ghost ps = pieces_of(chars@, pieces@);
    proof {
        assert(slash@ =~= seq!['/']);
        assert(chars@.subrange(0, chars@.len() as int) =~= content@);
    }
    let mut elements: Vec<WorkingProjectElement> = Vec::new();
    let mut k: usize = 0;
    proof {
        assert(ps.take(0) =~= Seq::<Seq<char>>::empty());
        assert(elems_view(elements@) =~= element_records(ps.take(0), bound_view(bound)));
    }
    while k < pieces.len()
        invariant
            k <= pieces@.len(),
            ps == pieces_of(chars@, pieces@),
            ps == split_char(content@, '/'),
            forall|j: int| 0 <= j < pieces@.len() ==> 0 <= (#[trigger] pieces@[j]).0 <= pieces@[j].1 <= chars@.len(),
            elems_view(elements@) == element_records(ps.take(k as int), bound_view(bound)),
        decreases pieces@.len() - k,
    {
        let (a, b) = pieces[k];
        let ws = word_ranges(chars.as_slice(), a, b);
        let ghost w = pieces_of(chars@, ws@);
        proof {
            assert(ps.take(k + 1).drop_last() =~= ps.take(k as int));
            assert(ps.take(k + 1).last() == chars@.subrange(a as int, b as int));
        }
        if ws.len() >= 2 {
            let code = match parse_unsigned_range(chars.as_slice(), ws[0].0, ws[0].1, 0xFFFF_FFFF) {
                Some(v) => v as u32,
                None => 0,
            };
            let material = match parse_unsigned_range(chars.as_slice(), ws[1].0, ws[1].1, 0xFFFF_FFFF) {
                Some(v) => v as u32,
                None => 0,
            };
            proof {
                assert(w[0] == chars@.subrange(ws@[0].0 as int, ws@[0].1 as int));
                assert(w[1] == chars@.subrange(ws@[1].0 as int, ws@[1].1 as int));
            }
            let indices = kept_coordinate_indices(chars.as_slice(), &ws, bound);
            let ghost before = elements@;
            elements.push(WorkingProjectElement { element_type: code, material, coordinate_indices: indices });
            proof {
                assert(elems_view(elements@) =~= elems_view(before).push(element_record(w, bound_view(bound))));
            }
        }
        k += 1;
    }
    proof {
        assert(ps.take(pieces@.len() as int) =~= ps);
    }
    elements
}

/// The coordinate numbers among the words `ws[2..]` of `chars` that lie
/// between 1 and `n - 1`.
fn kept_coordinate_indices(chars: &[char], ws: &Vec<(usize, usize)>, bound: Option<usize>) -> (r: Vec<usize>)
    requires
        ws@.len() >= 2,
        forall|j: int| 0 <= j < ws@.len() ==> (#[trigger] ws@[j]).0 <= ws@[j].1 <= chars@.len(),
    ensures
        r@ == kept_indices(pieces_of(chars@, ws@).skip(2), bound_view(bound)),
{
    let ghost rest = pieces_of(chars@, ws@).skip(2);
    let mut r: Vec<usize> = Vec::new();
    let mut j: usize = 2;
    proof {
        assert(rest.take(0) =~= Seq::<Seq<char>>::empty());
    }
    while j < ws.len()
        invariant
            2 <= j <= ws@.len(),
            rest == pieces_of(chars@, ws@).skip(2),
            forall|i: int| 0 <= i < ws@.len() ==> (#[trigger] ws@[i]).0 <= ws@[i].1 <= chars@.len(),
            r@ == kept_indices(rest.take(j - 2), bound_view(bound)),
        decreases ws@.len() - j,
    {
        let (a, b) = ws[j];
        proof {
            assert(rest.take(j - 1).drop_last() =~= rest.take(j - 2));
            assert(rest.take(j - 1).last() == chars@.subrange(a as int, b as int));
        }
        match parse_unsigned_range(chars, a, b, usize::MAX as u64) {
            Some(v) => {
                let keep = match bound {
                    Some(n) => 0 < v && v < n as u64,
                    None => true,
                };
                if keep {
                    r.push(v as usize);
                }
            },
            None => {},
        }
        j += 1;
    }
    proof {
        assert(rest.take(ws@.len() - 2) =~= rest);
    }
    r
}

proof fn lemma_doc_map_len(docs: Seq<WorkingProjectDocument>)
    requires
        distinct_ids(docs),
    ensures
        doc_map(docs).dom().finite(),
        doc_map(docs).len() == docs.len(),
    decreases docs.len(),
{
    if docs.len() > 0 {
        let init = docs.drop_last();
        assert(distinct_ids(init));
        lemma_doc_map_len(init);
        assert forall|i: int| 0 <= i < init.len() implies init[i].id@ != docs.last().id@ by {
            assert(docs[i].id@ != docs[docs.len() - 1].id@);
        }
        lemma_doc_map_absent(init, docs.last().id@);
    }
}

/// The text that the lines `body` add to an open document whose text so far
/// is `content`, `first` telling whether no line was taken yet: every line
/// but the first one taken is preceded by `/`.
pub open spec fn appended(content: Seq<char>, first: bool, body: Seq<Seq<char>>) -> Seq<char>
    decreases body.len(),
{
    if body.len() == 0 {
        content
    } else {
        let prev = appended(content, first, body.drop_last());
        (if first && body.len() == 1 {
            prev
        } else {
            prev.push('/')
        }) + body.last()
    }
}

/// Lines that neither open nor close a document.
pub open spec fn plain_lines(body: Seq<Seq<char>>) -> bool {
    forall|i: int| 0 <= i < body.len() ==> !opens_document(#[trigger] body[i]) && body[i] != seq![')']
}

proof fn lemma_scan_open_document(st: DocScan, open: Seq<char>, body: Seq<Seq<char>>, k: int)
    requires
        opens_document(open),
        plain_lines(body),
        0 <= k <= body.len(),
    ensures
        scan_lines(st, seq![open] + body.take(k)) == (DocScan {
            docs: st.docs,
            current: Some(document_id(open)),
            content: appended(document_head(open), document_head(open).len() == 0, body.take(k)),
            first: document_head(open).len() == 0 && k == 0,
        }),
    decreases k,
{
    let h = document_head(open);
    if k == 0 {
        let ls = seq![open] + body.take(0);
        assert(ls =~= seq![open]);
        assert(ls.drop_last() =~= Seq::<Seq<char>>::empty());
        assert(scan_lines(st, ls.drop_last()) == st);
        assert(body.take(0).len() == 0);
        assert(appended(h, h.len() == 0, body.take(0)) == h);
    } else {
        lemma_scan_open_document(st, open, body, k - 1);
        let ls = seq![open] + body.take(k);
        let prev = seq![open] + body.take(k - 1);
        assert(ls.drop_last() =~= prev);
        assert(ls.last() == body[k - 1]);
        let before = scan_lines(st, prev);
        assert(scan_lines(st, ls) == scan_line(before, body[k - 1]));
        assert(body.take(k).drop_last() =~= body.take(k - 1));
        assert(body.take(k).last() == body[k - 1]);
        assert(!opens_document(body[k - 1]) && body[k - 1] != seq![')']);
        assert(appended(h, h.len() == 0, body.take(k)) == (if h.len() == 0 && k == 1 {
            appended(h, h.len() == 0, body.take(k - 1))
        } else {
            appended(h, h.len() == 0, body.take(k - 1)).push('/')
        }) + body[k - 1]);
    }
}

/// A document written as an opening line `(number/head`, plain lines, and a
/// closing `)` line is read back: its number maps to the trimmed text made of
/// the head and the lines joined by `/`. Whatever document was open before
/// is dropped, and nothing else changes.
pub proof fn law_document_reads_back(st: DocScan, open: Seq<char>, body: Seq<Seq<char>>)
    requires
        opens_document(open),
        plain_lines(body),
    ensures
        scan_lines(st, seq![open] + body + seq![seq![')']]) == scan_start(
            st.docs.insert(
                document_id(open),
                trim(appended(document_head(open), document_head(open).len() == 0, body)),
            ),
        ),
{
    lemma_scan_open_document(st, open, body, body.len() as int);
    assert(body.take(body.len() as int) =~= body);
    let ls = seq![open] + body + seq![seq![')']];
    assert(ls.drop_last() =~= seq![open] + body);
    assert(ls.last() == seq![')']);
    assert(!opens_document(seq![')']));
}

/// A document that is opened but not closed is not stored: the documents
/// stay as they were.
pub proof fn law_unclosed_document_is_dropped(st: DocScan, open: Seq<char>, body: Seq<Seq<char>>)
    requires
        opens_document(open),
        plain_lines(body),
    ensures
        scan_lines(st, seq![open] + body).docs == st.docs,
        scan_lines(st, seq![open] + body).current == Some(document_id(open)),
{
    lemma_scan_open_document(st, open, body, body.len() as int);
    assert(body.take(body.len() as int) =~= body);
}

/// A line outside any document that does not open one changes nothing.
pub proof fn law_text_outside_documents_is_ignored(st: DocScan, line: Seq<char>)
    requires
        st.current is None,
        !opens_document(line),
    ensures
        scan_line(st, line) == st,
{
}

proof fn lemma_kept_indices_in_range(ws: Seq<Seq<char>>, n: nat)
    ensures
        forall|i: int| 0 <= i < kept_indices(ws, Some(n)).len() ==> 0 < #[trigger] kept_indices(ws, Some(n))[i] < n,
    decreases ws.len(),
{
    if ws.len() > 0 {
        lemma_kept_indices_in_range(ws.drop_last(), n);
        let prev = kept_indices(ws.drop_last(), Some(n));
        let cur = kept_indices(ws, Some(n));
        assert forall|i: int| 0 <= i < cur.len() implies 0 < #[trigger] cur[i] < n by {
            if i < prev.len() {
                assert(cur[i] == prev[i]);
            } else {
                match parse_unsigned(ws.last(), usize::MAX as nat) {
                    Some(v) => {
                        assert(v <= usize::MAX);
                        assert(cur[i] == v as usize);
                    },
                    None => {},
                }
            }
        }
    }
}

/// Every coordinate number that an element of document 1 keeps names an
/// existing coordinate other than the placeholder 0.
pub proof fn law_element_coordinates_exist(content: Seq<char>, n: nat, k: int, i: int)
    requires
        0 <= k < elements_of(content, Some(n)).len(),
        0 <= i < elements_of(content, Some(n))[k].2.len(),
    ensures
        0 < elements_of(content, Some(n))[k].2[i] < n,
{
    lemma_element_records_in_range(split_char(content, '/'), n);
}

proof fn lemma_element_records_in_range(pieces: Seq<Seq<char>>, n: nat)
    ensures
        forall|k: int, i: int|
            0 <= k < element_records(pieces, Some(n)).len() && 0 <= i < element_records(pieces, Some(n))[k].2.len()
                ==> 0 < #[trigger] element_records(pieces, Some(n))[k].2[i] < n,
    decreases pieces.len(),
{
    if pieces.len() > 0 {
        lemma_element_records_in_range(pieces.drop_last(), n);
        let w = words(pieces.last());
        if w.len() >= 2 {
            lemma_kept_indices_in_range(w.skip(2), n);
        }
        let prev = element_records(pieces.drop_last(), Some(n));
        assert forall|k: int, i: int|
            0 <= k < element_records(pieces, Some(n)).len() && 0 <= i < element_records(pieces, Some(n))[k].2.len()
                implies 0 < #[trigger] element_records(pieces, Some(n))[k].2[i] < n by {
            if k < prev.len() {
                assert(element_records(pieces, Some(n))[k] == prev[k]);
            }
        }
    }
}

} // verus!
