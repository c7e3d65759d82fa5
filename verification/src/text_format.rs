use crate::lir_parser::{element_type_of, node_list_separators, read_node_numbers, LiraErrorKind};
use crate::patterns::{regex_captures, to_upper};
use crate::text::{
    chars_of, is_digit, is_whitespace, is_ws, parse_unsigned, separator, split_when, trim,
    trim_bounds,
};
use crate::types::{ElementType, FileMetadata, LiraElement};
use vstd::prelude::*;

verus! {

/// The regular expression of a node line: `1 0.0 1.5 -2.3` or
/// `NODE 42 X=10.5 Y=-5.0 Z=0.0`.
pub open spec fn node_pattern() -> Seq<char> {
    r"(?i)(?:node\s+)?(\d+)\s+(?:x=)?([+-]?\d*\.?\d+)\s+(?:y=)?([+-]?\d*\.?\d+)\s+(?:z=)?([+-]?\d*\.?\d+)"@
}

/// The regular expression of an element line: `1 SHELL 1 2 3 4` or
/// `ELEMENT 5 TYPE=BEAM NODES=10,20`.
pub open spec fn element_pattern() -> Seq<char> {
    r"(?i)(?:element\s+)?(\d+)\s+(?:type=)?(\w+)\s+(?:nodes=)?([\d,\s]+)"@
}

/// The text of the node line pattern.
pub fn node_pattern_text() -> (s: &'static str)
    ensures
        s@ == node_pattern(),
{
    r"(?i)(?:node\s+)?(\d+)\s+(?:x=)?([+-]?\d*\.?\d+)\s+(?:y=)?([+-]?\d*\.?\d+)\s+(?:z=)?([+-]?\d*\.?\d+)"
}

/// The text of the element line pattern.
pub fn element_pattern_text() -> (s: &'static str)
    ensures
        s@ == element_pattern(),
{
    r"(?i)(?:element\s+)?(\d+)\s+(?:type=)?(\w+)\s+(?:nodes=)?([\d,\s]+)"
}

/// A node of a text model file: its number, the text of its coordinates and
/// the numbers of the elements that use it.
#[derive(Debug)]
pub struct LiraNodeFields {
    pub id: u32,
    pub x: String,
    pub y: String,
    pub z: String,
    pub connected_elements: Vec<u32>,
}

/// What a text model file holds.
#[derive(Debug)]
pub struct ParseResult {
    /// The elements, in file order
    pub elements: Vec<LiraElement>,
    /// The nodes, one per number
    pub nodes: Vec<LiraNodeFields>,
    /// Name and comments of the file
    pub metadata: FileMetadata,
}

/// Number, kind and nodes of an element.
pub open spec fn lira_view(e: LiraElement) -> (u32, ElementType, Seq<u32>) {
    (e.id, e.element_type, e.nodes@)
}

/// Number and coordinate texts of a node.
pub open spec fn node_view(n: LiraNodeFields) -> (u32, Seq<char>, Seq<char>, Seq<char>) {
    (n.id, n.x@, n.y@, n.z@)
}

/// The comment of a (trimmed) line that starts with `!` or `#`.
pub open spec fn comment_of(l: Seq<char>) -> Option<Seq<char>> {
    if l.len() > 0 && (l[0] == '!' || l[0] == '#') {
        Some(trim(l.drop_first()))
    } else {
        None
    }
}

/// A character of a section name: `A` to `Z` or `_`.
pub open spec fn is_section_char(c: char) -> bool {
    (65 <= c as u32 <= 90) || c == '_'
}

/// Length of the leading run of section-name characters of `s`.
pub open spec fn section_run(s: Seq<char>) -> nat
    decreases s.len(),
{
    if s.len() > 0 && is_section_char(s[0]) {
        1 + section_run(s.drop_first())
    } else {
        0
    }
}

/// The section named by a (trimmed) line `[NAME]` or `*NAME`: `[` or `*`,
/// a name of `A`-`Z` and `_`, then only `]` and whitespace.
pub open spec fn section_of(l: Seq<char>) -> Option<Seq<char>> {
    if l.len() > 0 && (l[0] == '[' || l[0] == '*') {
        let rest = l.drop_first();
        let k = section_run(rest);
        if k > 0 && forall|i: int| k <= i < rest.len() ==> (#[trigger] rest[i] == ']' || is_ws(rest[i])) {
            Some(rest.take(k as int))
        } else {
            None
        }
    } else {
        None
    }
}

/// Every character is an ASCII digit.
pub open spec fn all_digits(s: Seq<char>) -> bool {
    forall|i: int| 0 <= i < s.len() ==> is_digit(#[trigger] s[i])
}

/// ASCII digits with at most one `.` among them and at least one digit after
/// it: the form `\d*\.?\d+` of the node pattern, with ASCII digits.
pub open spec fn unsigned_decimal(s: Seq<char>) -> bool {
    ||| (s.len() > 0 && all_digits(s))
    ||| exists|k: int|
        0 <= k < s.len() - 1 && #[trigger] s[k] == '.' && all_digits(s.take(k)) && all_digits(
            s.skip(k + 1),
        )
}

/// A decimal number of the node pattern's form `[+-]?\d*\.?\d+` written with
/// ASCII digits: a coordinate reads as a number exactly when it is such a
/// text (the pattern's `\d` admits other Unicode digits, which numbers do
/// not).
pub open spec fn decimal_text(s: Seq<char>) -> bool {
    if s.len() > 0 && (s[0] == '+' || s[0] == '-') {
        unsigned_decimal(s.drop_first())
    } else {
        unsigned_decimal(s)
    }
}

/// Capture groups 1 to `count` all took part in the match.
pub open spec fn has_groups(g: Seq<Option<Seq<char>>>, count: int) -> bool {
    g.len() > count && forall|i: int| 1 <= i <= count ==> #[trigger] g[i] is Some
}

/// The node that a node line's groups give, or the error of the line.
pub open spec fn node_from_groups(line: Seq<char>, g: Seq<Option<Seq<char>>>) -> Result<
    (u32, Seq<char>, Seq<char>, Seq<char>),
    (LiraErrorKind, Seq<char>),
> {
    match parse_unsigned(g[1]->0, u32::MAX as nat) {
        None => Err((LiraErrorKind::InvalidNodeId, line)),
        Some(id) => if !decimal_text(g[2]->0) {
            Err((LiraErrorKind::InvalidX, line))
        } else if !decimal_text(g[3]->0) {
            Err((LiraErrorKind::InvalidY, line))
        } else if !decimal_text(g[4]->0) {
            Err((LiraErrorKind::InvalidZ, line))
        } else {
            Ok((id as u32, g[2]->0, g[3]->0, g[4]->0))
        },
    }
}

/// What a line gives as a node line: nothing where the node pattern does
/// not match it (or leaves a group out), else the node or the error.
pub open spec fn node_line(line: Seq<char>) -> Option<
    Result<(u32, Seq<char>, Seq<char>, Seq<char>), (LiraErrorKind, Seq<char>)>,
> {
    match regex_captures(node_pattern(), line) {
        Some(g) => if has_groups(g, 4) {
            Some(node_from_groups(line, g))
        } else {
            None
        },
        None => None,
    }
}

/// The element that an element line's groups give, or the error of the line.
pub open spec fn element_from_groups(line: Seq<char>, g: Seq<Option<Seq<char>>>) -> Result<
    (u32, ElementType, Seq<u32>),
    (LiraErrorKind, Seq<char>),
> {
    match parse_unsigned(g[1]->0, u32::MAX as nat) {
        None => Err((LiraErrorKind::InvalidElementNumber, line)),
        Some(id) => match read_node_numbers(
            split_when(g[3]->0, separator(false, node_list_separators())),
        ) {
            Err(_) => Err((LiraErrorKind::InvalidNodeList, line)),
            Ok(ns) => Ok((id as u32, element_type_of(to_upper(g[2]->0)), ns)),
        },
    }
}

/// What a line gives as an element line: nothing where the element pattern
/// does not match it (or leaves a group out), else the element or the error.
pub open spec fn element_line(line: Seq<char>) -> Option<
    Result<(u32, ElementType, Seq<u32>), (LiraErrorKind, Seq<char>)>,
> {
    match regex_captures(element_pattern(), line) {
        Some(g) => if has_groups(g, 3) {
            Some(element_from_groups(line, g))
        } else {
            None
        },
        None => None,
    }
}

/// Position of the node numbered `id` in `nodes`; the length where there
/// is none.
pub open spec fn node_position(nodes: Seq<(u32, Seq<char>, Seq<char>, Seq<char>)>, id: u32) -> nat
    decreases nodes.len(),
{
    if nodes.len() == 0 {
        0
    } else if nodes[0].0 == id {
        0
    } else {
        1 + node_position(nodes.drop_first(), id)
    }
}

/// `nodes` with `n` in place of the node with its number, or `n` added.
pub open spec fn upsert_node(
    nodes: Seq<(u32, Seq<char>, Seq<char>, Seq<char>)>,
    n: (u32, Seq<char>, Seq<char>, Seq<char>),
) -> Seq<(u32, Seq<char>, Seq<char>, Seq<char>)> {
    let p = node_position(nodes, n.0);
    if p < nodes.len() {
        nodes.update(p as int, n)
    } else {
        nodes.push(n)
    }
}

/// Where the reading of a text model stands.
pub struct TextScan {
    /// The current section
    pub section: Seq<char>,
    /// The nodes read, one per number, in order of first appearance
    pub nodes: Seq<(u32, Seq<char>, Seq<char>, Seq<char>)>,
    /// The elements read, in order
    pub elements: Seq<(u32, ElementType, Seq<u32>)>,
    /// The comments read, in order
    pub comments: Seq<Seq<char>>,
}

/// Reading starts outside any section with nothing read.
pub open spec fn text_start() -> TextScan {
    TextScan { section: Seq::empty(), nodes: Seq::empty(), elements: Seq::empty(), comments: Seq::empty() }
}

/// The reading with a node taken.
pub open spec fn with_node(st: TextScan, n: (u32, Seq<char>, Seq<char>, Seq<char>)) -> TextScan {
    TextScan { nodes: upsert_node(st.nodes, n), ..st }
}

/// The reading with an element taken.
pub open spec fn with_element(st: TextScan, e: (u32, ElementType, Seq<u32>)) -> TextScan {
    TextScan { elements: st.elements.push(e), ..st }
}

/// What one trimmed line does to the reading: blank lines are skipped,
/// comments and section heads recorded; in the node and element sections
/// lines are read as nodes or elements, elsewhere as a node if they match
/// the node pattern, else as an element.
pub open spec fn text_line(st: TextScan, l: Seq<char>) -> Result<TextScan, (LiraErrorKind, Seq<char>)> {
    if l.len() == 0 {
        Ok(st)
    } else if comment_of(l) is Some {
        Ok(TextScan { comments: st.comments.push(comment_of(l)->0), ..st })
    } else if section_of(l) is Some {
        Ok(TextScan { section: section_of(l)->0, ..st })
    } else if st.section == "NODES"@ || st.section == "NODE"@ {
        match node_line(l) {
            None => Ok(st),
            Some(Err(e)) => Err(e),
            Some(Ok(n)) => Ok(with_node(st, n)),
        }
    } else if st.section == "ELEMENTS"@ || st.section == "ELEMENT"@ {
        match element_line(l) {
            None => Ok(st),
            Some(Err(e)) => Err(e),
            Some(Ok(e)) => Ok(with_element(st, e)),
        }
    } else {
        match node_line(l) {
            Some(Err(e)) => Err(e),
            Some(Ok(n)) => Ok(with_node(st, n)),
            None => match element_line(l) {
                None => Ok(st),
                Some(Err(e)) => Err(e),
                Some(Ok(e)) => Ok(with_element(st, e)),
            },
        }
    }
}

/// A name of section characters runs up to the closing `]`.
proof fn lemma_section_run_name(n: Seq<char>)
    requires
        forall|i: int| 0 <= i < n.len() ==> is_section_char(#[trigger] n[i]),
    ensures
        section_run(n + seq![']']) == n.len(),
    decreases n.len(),
{
    if n.len() > 0 {
        lemma_section_run_name(n.drop_first());
        assert((n + seq![']']).drop_first() =~= n.drop_first() + seq![']']);
    } else {
        assert((n + seq![']'])[0] == ']');
    }
}

/// What a line does to the reading of a text model file, by its form: a
/// blank line changes nothing; a line starting with `!` or `#` only records
/// the rest of the line, trimmed, as a comment; a line `[NAME]`, with a name
/// of `A`-`Z` and `_`, only makes `NAME` the current section.
pub proof fn law_text_line_forms(st: TextScan, l: Seq<char>, name: Seq<char>)
    ensures
        l.len() == 0 ==> text_line(st, l) == Ok::<TextScan, (LiraErrorKind, Seq<char>)>(st),
        l.len() > 0 && (l[0] == '!' || l[0] == '#') ==> text_line(st, l) == Ok::<
            TextScan,
            (LiraErrorKind, Seq<char>),
        >(
            TextScan {
                section: st.section,
                nodes: st.nodes,
                elements: st.elements,
                comments: st.comments.push(trim(l.drop_first())),
            },
        ),
        (name.len() > 0 && forall|i: int| 0 <= i < name.len() ==> is_section_char(#[trigger] name[i]))
            ==> text_line(st, seq!['['] + name + seq![']']) == Ok::<
            TextScan,
            (LiraErrorKind, Seq<char>),
        >(TextScan { section: name, nodes: st.nodes, elements: st.elements, comments: st.comments }),
{
    if name.len() > 0 && forall|i: int| 0 <= i < name.len() ==> is_section_char(#[trigger] name[i]) {
        let line = seq!['['] + name + seq![']'];
        let rest = line.drop_first();
        assert(rest =~= name + seq![']']);
        lemma_section_run_name(name);
        assert(line[0] == '[');
        assert(is_section_char(name[0]));
        assert(rest.take(name.len() as int) =~= name);
        assert forall|i: int| name.len() <= i < rest.len() implies (#[trigger] rest[i] == ']' || is_ws(
            rest[i],
        )) by {
            assert(rest[i] == ']');
        }
        assert(comment_of(line) is None);
    }
}

/// The reading after the lines `ls`; the first error stops it.
pub open spec fn text_lines(st: TextScan, ls: Seq<Seq<char>>) -> Result<TextScan, (LiraErrorKind, Seq<char>)>
    decreases ls.len(),
{
    if ls.len() == 0 {
        Ok(st)
    } else {
        match text_lines(st, ls.drop_last()) {
            Err(e) => Err(e),
            Ok(s) => text_line(s, ls.last()),
        }
    }
}

/// Bounds of the comment of the trimmed line `chars[lo..hi]`.
pub fn comment_range(chars: &[char], lo: usize, hi: usize) -> (r: Option<(usize, usize)>)
    requires
        lo <= hi <= chars@.len(),
    ensures
        r is Some <==> comment_of(chars@.subrange(lo as int, hi as int)) is Some,
        r matches Some(b) ==> lo <= b.0 <= b.1 <= hi && chars@.subrange(b.0 as int, b.1 as int)
            == comment_of(chars@.subrange(lo as int, hi as int))->0,
{
    let ghost l = chars@.subrange(lo as int, hi as int);
    if lo < hi && (chars[lo] == '!' || chars[lo] == '#') {
        let (a, b) = trim_bounds(chars, lo + 1, hi);
        proof {
            assert(l[0] == chars@[lo as int]);
            assert(l.drop_first() =~= chars@.subrange(lo + 1, hi as int));
        }
        Some((a, b))
    } else {
        proof {
            if l.len() > 0 {
                assert(l[0] == chars@[lo as int]);
            }
        }
        None
    }
}

proof fn lemma_section_run(s: Seq<char>, k: int)
    requires
        0 <= k <= s.len(),
        forall|j: int| 0 <= j < k ==> is_section_char(#[trigger] s[j]),
        k == s.len() || !is_section_char(s[k]),
    ensures
        section_run(s) == k,
    decreases s.len(),
{
    if s.len() > 0 && k > 0 {
        assert forall|j: int| 0 <= j < k - 1 implies is_section_char(#[trigger] s.drop_first()[j]) by {
            assert(is_section_char(s[j + 1]));
        }
        lemma_section_run(s.drop_first(), k - 1);
    }
}

/// Bounds of the section name of the trimmed line `chars[lo..hi]`.
pub fn section_range(chars: &[char], lo: usize, hi: usize) -> (r: Option<(usize, usize)>)
    requires
        lo <= hi <= chars@.len(),
    ensures
        r is Some <==> section_of(chars@.subrange(lo as int, hi as int)) is Some,
        r matches Some(b) ==> lo <= b.0 <= b.1 <= hi && chars@.subrange(b.0 as int, b.1 as int)
            == section_of(chars@.subrange(lo as int, hi as int))->0,
{
    let ghost l = chars@.subrange(lo as int, hi as int);
    if !(lo < hi && (chars[lo] == '[' || chars[lo] == '*')) {
        proof {
            if l.len() > 0 {
                assert(l[0] == chars@[lo as int]);
            }
        }
        return None;
    }
    let ghost rest = l.drop_first();
    proof {
        assert(l[0] == chars@[lo as int]);
        assert(rest =~= chars@.subrange(lo + 1, hi as int));
    }
    let mut j = lo + 1;
    while j < hi && ((65 <= chars[j] as u32 && chars[j] as u32 <= 90) || chars[j] == '_')
        invariant
            lo + 1 <= j <= hi <= chars@.len(),
            forall|t: int| lo + 1 <= t < j ==> is_section_char(#[trigger] chars@[t]),
        decreases hi - j,
    {
        j += 1;
    }
    proof {
        assert forall|t: int| 0 <= t < j - lo - 1 implies is_section_char(#[trigger] rest[t]) by {
            assert(rest[t] == chars@[lo + 1 + t]);
        }
        if j < hi {
            assert(rest[j - lo - 1] == chars@[j as int]);
        }
        lemma_section_run(rest, j - lo - 1);
    }
    if j == lo + 1 {
        return None;
    }
    let mut t = j;
    while t < hi && (chars[t] == ']' || is_whitespace(chars[t]))
        invariant
            j <= t <= hi <= chars@.len(),
            forall|u: int| j <= u < t ==> (#[trigger] chars@[u] == ']' || is_ws(chars@[u])),
        decreases hi - t,
    {
        t += 1;
    }
    proof {
        let k = section_run(rest);
        assert(k == j - lo - 1);
        if t == hi {
            assert forall|i: int| k <= i < rest.len() implies (#[trigger] rest[i] == ']' || is_ws(
                rest[i],
            )) by {
                assert(rest[i] == chars@[lo + 1 + i]);
            }
            assert(rest.take(k as int) =~= chars@.subrange(lo + 1, j as int));
        } else {
            assert(rest[t - lo - 1] == chars@[t as int]);
        }
    }
    if t == hi {
        Some((lo + 1, j))
    } else {
        None
    }
}

/// Whether `chars[lo..hi]` are all ASCII digits.
fn digits_only(chars: &Vec<char>, lo: usize, hi: usize) -> (r: bool)
    requires
        lo <= hi <= chars@.len(),
    ensures
        r == all_digits(chars@.subrange(lo as int, hi as int)),
{
    let mut i = lo;
    while i < hi
        invariant
            lo <= i <= hi,
            hi <= chars@.len(),
            forall|j: int| lo <= j < i ==> is_digit(#[trigger] chars@[j]),
        decreases hi - i,
    {
        let u = chars[i] as u32;
        if !(48 <= u && u <= 57) {
            assert(chars@.subrange(lo as int, hi as int)[i - lo] == chars@[i as int]);
            return false;
        }
        i += 1;
    }
    assert forall|j: int| 0 <= j < hi - lo implies is_digit(#[trigger] chars@.subrange(lo as int, hi as int)[j]) by {
        assert(chars@.subrange(lo as int, hi as int)[j] == chars@[lo + j]);
    }
    true
}

/// Whether `s` is a decimal number of the node pattern's form.
pub fn is_decimal_text(s: &str) -> (r: bool)
    ensures
        r == decimal_text(s@),
{
    let chars = chars_of(s);
    let n = chars.len();
    let start: usize = if n > 0 && (chars[0] == '+' || chars[0] == '-') { 1 } else { 0 };
    let ghost u = chars@.subrange(start as int, n as int);
    proof {
        if start == 1 {
            assert(u =~= s@.drop_first());
        } else {
            assert(u =~= s@);
        }
    }
    let mut k = start;
    while k < n && chars[k] != '.'
        invariant
            start <= k <= n,
            n == chars@.len(),
            forall|j: int| start <= j < k ==> chars@[j] != '.',
        decreases n - k,
    {
        k += 1;
    }
    let r = if k == n {
        n > start && digits_only(&chars, start, n)
    } else {
        digits_only(&chars, start, k) && k + 1 < n && digits_only(&chars, k + 1, n)
    };
    proof {
        let d = (k - start) as int;
        if k == n {
            // no dot: only the all-digit form can hold
            if exists|q: int| 0 <= q < u.len() - 1 && #[trigger] u[q] == '.' && all_digits(u.take(q)) && all_digits(u.skip(q + 1)) {
                let q = choose|q: int| 0 <= q < u.len() - 1 && #[trigger] u[q] == '.' && all_digits(u.take(q)) && all_digits(u.skip(q + 1));
                assert(u[q] == chars@[start + q]);
            }
        } else {
            assert(u[d] == '.');
            assert(u.take(d) =~= chars@.subrange(start as int, k as int));
            assert(u.skip(d + 1) =~= chars@.subrange(k + 1, n as int));
            if u.len() > 0 && all_digits(u) {
                assert(is_digit(u[d]));
            }
            if exists|q: int| 0 <= q < u.len() - 1 && #[trigger] u[q] == '.' && all_digits(u.take(q)) && all_digits(u.skip(q + 1)) {
                let q = choose|q: int| 0 <= q < u.len() - 1 && #[trigger] u[q] == '.' && all_digits(u.take(q)) && all_digits(u.skip(q + 1));
                if q < d {
                    assert(u[q] == chars@[start + q]);
                } else if q > d {
                    assert(u.take(q)[d] == u[d]);
                    assert(is_digit(u.take(q)[d]));
                }
            }
            if r {
                assert(0 <= d < u.len() - 1 && u[d] == '.' && all_digits(u.take(d)) && all_digits(u.skip(d + 1)));
            }
        }
    }
    r
}

/// Number and coordinate texts of the nodes of `v`.
pub open spec fn nodes_view(v: Seq<LiraNodeFields>) -> Seq<(u32, Seq<char>, Seq<char>, Seq<char>)> {
    v.map_values(|n: LiraNodeFields| node_view(n))
}

/// Number, kind and nodes of the elements of `v`.
pub open spec fn elements_view(v: Seq<LiraElement>) -> Seq<(u32, ElementType, Seq<u32>)> {
    v.map_values(|e: LiraElement| lira_view(e))
}

/// No two nodes share a number.
pub open spec fn distinct_nodes(v: Seq<(u32, Seq<char>, Seq<char>, Seq<char>)>) -> bool {
    forall|i: int, j: int| 0 <= i < j < v.len() ==> v[i].0 != v[j].0
}

proof fn lemma_node_position(nodes: Seq<(u32, Seq<char>, Seq<char>, Seq<char>)>, id: u32, k: int)
    requires
        0 <= k <= nodes.len(),
        forall|j: int| 0 <= j < k ==> (#[trigger] nodes[j]).0 != id,
        k == nodes.len() || nodes[k].0 == id,
    ensures
        node_position(nodes, id) == k,
    decreases nodes.len(),
{
    if nodes.len() > 0 && k > 0 {
        assert forall|j: int| 0 <= j < k - 1 implies (#[trigger] nodes.drop_first()[j]).0 != id by {
            assert(nodes[j + 1].0 != id);
        }
        lemma_node_position(nodes.drop_first(), id, k - 1);
    }
}

/// Puts `n` in place of the node with its number, or adds it.
pub fn upsert_node_fields(nodes: &mut Vec<LiraNodeFields>, n: LiraNodeFields)
    requires
        distinct_nodes(nodes_view(old(nodes)@)),
        n.connected_elements@.len() == 0,
        forall|i: int| 0 <= i < old(nodes)@.len() ==> (#[trigger] old(nodes)@[i]).connected_elements@.len() == 0,
    ensures
        distinct_nodes(nodes_view(final(nodes)@)),
        nodes_view(final(nodes)@) == upsert_node(nodes_view(old(nodes)@), node_view(n)),
        forall|i: int| 0 <= i < final(nodes)@.len() ==> (#[trigger] final(nodes)@[i]).connected_elements@.len() == 0,
{
    let ghost before = nodes_view(nodes@);
    let mut i: usize = 0;
    while i < nodes.len()
        invariant
            i <= nodes@.len(),
            nodes@ == old(nodes)@,
            before == nodes_view(nodes@),
            distinct_nodes(before),
            n.connected_elements@.len() == 0,
            forall|j: int| 0 <= j < nodes@.len() ==> (#[trigger] nodes@[j]).connected_elements@.len() == 0,
            forall|j: int| 0 <= j < i ==> (#[trigger] nodes@[j]).id != n.id,
        decreases nodes@.len() - i,
    {
        if nodes[i].id == n.id {
            proof {
                assert forall|j: int| 0 <= j < i implies (#[trigger] before[j]).0 != n.id by {
                    assert(before[j] == node_view(nodes@[j]));
                }
                lemma_node_position(before, n.id, i as int);
            }
            let ghost nv = node_view(n);
            nodes.set(i, n);
            proof {
                assert(nodes_view(nodes@) =~= before.update(i as int, nv));
                let after = nodes_view(nodes@);
                assert(before[i as int].0 == n.id);
                assert forall|j: int| 0 <= j < nodes@.len() implies (#[trigger] nodes@[j]).connected_elements@.len() == 0 by {
                    if j != i {
                        assert(nodes@[j] == old(nodes)@[j]);
                    }
                }
                assert forall|a: int, b: int| 0 <= a < b < after.len() implies after[a].0 != after[b].0 by {
                    assert(before[a].0 != before[b].0);
                }
            }
            return;
        }
        i += 1;
    }
    proof {
        assert forall|j: int| 0 <= j < before.len() implies (#[trigger] before[j]).0 != n.id by {
            assert(before[j] == node_view(nodes@[j]));
        }
        lemma_node_position(before, n.id, before.len() as int);
    }
    let ghost nv = node_view(n);
    nodes.push(n);
    proof {
        assert(nodes_view(nodes@) =~= before.push(nv));
    }
}

proof fn lemma_node_position_props(nodes: Seq<(u32, Seq<char>, Seq<char>, Seq<char>)>, id: u32)
    ensures
        node_position(nodes, id) <= nodes.len(),
        node_position(nodes, id) < nodes.len() ==> nodes[node_position(nodes, id) as int].0 == id,
        node_position(nodes, id) == nodes.len() ==> forall|i: int| 0 <= i < nodes.len() ==> (#[trigger] nodes[i]).0 != id,
    decreases nodes.len(),
{
    if nodes.len() > 0 && nodes[0].0 != id {
        let t = nodes.drop_first();
        lemma_node_position_props(t, id);
        assert forall|i: int| 1 <= i < nodes.len() implies nodes[i] == t[i - 1] by {}
    }
}

/// Putting a node into a list of nodes with distinct numbers keeps them
/// distinct.
proof fn lemma_upsert_distinct(nodes: Seq<(u32, Seq<char>, Seq<char>, Seq<char>)>, n: (u32, Seq<char>, Seq<char>, Seq<char>))
    requires
        distinct_nodes(nodes),
    ensures
        distinct_nodes(upsert_node(nodes, n)),
{
    lemma_node_position_props(nodes, n.0);
    let p = node_position(nodes, n.0);
    let u = upsert_node(nodes, n);
    assert forall|i: int, j: int| 0 <= i < j < u.len() implies u[i].0 != u[j].0 by {
        if p < nodes.len() {
            assert(nodes[i].0 != nodes[j].0);
        } else if j == nodes.len() {
            assert(u[i] == nodes[i]);
        } else {
            assert(nodes[i].0 != nodes[j].0);
        }
    }
}

/// A text model keeps one node per number: a later node line with the
/// number of an earlier one replaces it.
pub proof fn law_text_nodes_have_distinct_numbers(ls: Seq<Seq<char>>)
    ensures
        text_lines(text_start(), ls) matches Ok(st) ==> distinct_nodes(st.nodes),
    decreases ls.len(),
{
    if ls.len() > 0 {
        law_text_nodes_have_distinct_numbers(ls.drop_last());
        match text_lines(text_start(), ls.drop_last()) {
            Ok(prev) => {
                match node_line(ls.last()) {
                    Some(Ok(n)) => {
                        lemma_upsert_distinct(prev.nodes, n);
                    },
                    _ => {},
                }
            },
            Err(_) => {},
        }
    }
}

} // verus!
