use crate::id_lists::contains_id;
use std::collections::HashSet;
use vstd::prelude::*;

verus! {

broadcast use vstd::std_specs::hash::group_hash_axioms;

/// Kind of a structural element of a LIRA model.
#[derive(Debug, Clone, Copy, PartialEq, Eq, Structural)]
pub enum ElementType {
    /// Plate / shell element
    Shell,
    /// Bar element (beam, girder)
    Beam,
    /// Column
    Column,
    /// Unrecognised type
    Unknown,
}

/// A structural element as the connectivity analysis sees it: its number,
/// its kind and the numbers of its nodes.
#[derive(Debug, Clone)]
pub struct LiraElement {
    pub id: u32,
    pub element_type: ElementType,
    pub nodes: Vec<u32>,
}

impl LiraElement {
    /// True exactly for plate elements.
    pub fn is_shell(&self) -> (r: bool)
        ensures
            r == (self.element_type == ElementType::Shell),
    {
        match self.element_type {
            ElementType::Shell => true,
            _ => false,
        }
    }

    /// True exactly for bar elements: beams and columns.
    pub fn is_beam(&self) -> (r: bool)
        ensures
            r == (self.element_type == ElementType::Beam || self.element_type
                == ElementType::Column),
    {
        match self.element_type {
            ElementType::Beam | ElementType::Column => true,
            _ => false,
        }
    }
}

/// Counters of a group of connected elements.
#[derive(Debug, Clone, Copy, PartialEq, Eq, Structural)]
pub struct GroupStatistics {
    /// Number of plate elements
    pub shell_count: usize,
    /// Number of beams
    pub beam_count: usize,
    /// Number of columns
    pub column_count: usize,
    /// Number of distinct nodes of the group's elements
    pub total_nodes: usize,
}

impl GroupStatistics {
    /// All counters zero.
    pub open spec fn zero_spec() -> Self {
        GroupStatistics { shell_count: 0, beam_count: 0, column_count: 0, total_nodes: 0 }
    }

    pub fn zero() -> (s: Self)
        ensures
            s == Self::zero_spec(),
    {
        GroupStatistics { shell_count: 0, beam_count: 0, column_count: 0, total_nodes: 0 }
    }
}

/// A group of connected elements.
#[derive(Debug, Clone)]
pub struct ConnectedGroup {
    /// Number of the group
    pub id: usize,
    /// Element numbers of the group
    pub elements: Vec<u32>,
    /// Prevailing element kind
    pub group_type: ElementType,
    /// Counters
    pub stats: GroupStatistics,
}

/// How many elements of `elems` whose number is in `members` have kind `t`.
pub open spec fn count_kind(elems: Seq<LiraElement>, members: Seq<u32>, t: ElementType) -> nat
    decreases elems.len(),
{
    if elems.len() == 0 {
        0
    } else {
        count_kind(elems.drop_last(), members, t) + if members.contains(elems.last().id)
            && elems.last().element_type == t {
            1nat
        } else {
            0nat
        }
    }
}

/// The nodes used by the elements of `elems` whose number is in `members`.
pub open spec fn group_nodes(elems: Seq<LiraElement>, members: Seq<u32>) -> Set<u32> {
    Set::new(
        |n: u32|
            exists|i: int|
                0 <= i < elems.len() && members.contains(elems[i].id) && #[trigger] elems[i].nodes@.contains(n),
    )
}

/// The prevailing kind of a group from its counters: plates when they
/// outnumber all bars, else beams when they outnumber columns, else columns
/// when there is one, else unknown.
pub open spec fn dominant_type(shells: nat, beams: nat, columns: nat) -> ElementType {
    if shells > beams + columns {
        ElementType::Shell
    } else if beams > columns {
        ElementType::Beam
    } else if columns > 0 {
        ElementType::Column
    } else {
        ElementType::Unknown
    }
}

/// The counters and prevailing kind that `update_statistics` computes.
pub open spec fn statistics_hold(g: ConnectedGroup, elems: Seq<LiraElement>) -> bool {
    let members = g.elements@;
    &&& g.stats.shell_count == count_kind(elems, members, ElementType::Shell)
    &&& g.stats.beam_count == count_kind(elems, members, ElementType::Beam)
    &&& g.stats.column_count == count_kind(elems, members, ElementType::Column)
    &&& g.stats.total_nodes == group_nodes(elems, members).len()
    &&& g.group_type == dominant_type(
        count_kind(elems, members, ElementType::Shell),
        count_kind(elems, members, ElementType::Beam),
        count_kind(elems, members, ElementType::Column),
    )
}

proof fn lemma_count_kind_le(elems: Seq<LiraElement>, members: Seq<u32>, t: ElementType)
    ensures
        count_kind(elems, members, t) <= elems.len(),
    decreases elems.len(),
{
    if elems.len() > 0 {
        lemma_count_kind_le(elems.drop_last(), members, t);
    }
}

impl ConnectedGroup {
    /// A new group with zero counters and unknown kind.
    pub fn new(id: usize, elements: Vec<u32>) -> (g: Self)
        ensures
            g.id == id,
            g.elements == elements,
            g.group_type == ElementType::Unknown,
            g.stats == GroupStatistics::zero_spec(),
    {
        ConnectedGroup { id, elements, group_type: ElementType::Unknown, stats: GroupStatistics::zero() }
    }

    /// Recomputes the counters and the prevailing kind from the elements
    /// whose number belongs to the group.
    pub fn update_statistics(&mut self, elements: &[LiraElement])
        ensures
            final(self).id == old(self).id,
            final(self).elements == old(self).elements,
            statistics_hold(*final(self), elements@),
    {
        let mut shells: usize = 0;
        let mut beams: usize = 0;
        let mut columns: usize = 0;
        let mut unique_nodes: HashSet<u32> = HashSet::new();
        let ghost members = self.elements@;
        let mut i: usize = 0;
        while i < elements.len()
            invariant
                i <= elements.len(),
                members == self.elements@,
                shells == count_kind(elements@.take(i as int), members, ElementType::Shell),
                beams == count_kind(elements@.take(i as int), members, ElementType::Beam),
                columns == count_kind(elements@.take(i as int), members, ElementType::Column),
                unique_nodes@ == group_nodes(elements@.take(i as int), members),
            decreases elements.len() - i,
        {
            let element = &elements[i];
            let ghost before = unique_nodes@;
            proof {
                assert(elements@.take(i + 1).drop_last() =~= elements@.take(i as int));
                lemma_count_kind_le(elements@.take(i as int), members, ElementType::Shell);
                lemma_count_kind_le(elements@.take(i as int), members, ElementType::Beam);
                lemma_count_kind_le(elements@.take(i as int), members, ElementType::Column);
            }
            if contains_id(&self.elements, element.id) {
                match element.element_type {
                    ElementType::Shell => shells += 1,
                    ElementType::Beam => beams += 1,
                    ElementType::Column => columns += 1,
                    ElementType::Unknown => {},
                }
                let mut j: usize = 0;
                while j < element.nodes.len()
                    invariant
                        j <= element.nodes.len(),
                        unique_nodes@ == before + element.nodes@.take(j as int).to_set(),
                    decreases element.nodes.len() - j,
                {
                    unique_nodes.insert(element.nodes[j]);
                    proof {
                        assert(element.nodes@.take(j + 1) =~= element.nodes@.take(j as int).push(element.nodes@[j as int]));
                        let tj = element.nodes@.take(j as int);
                        let x = element.nodes@[j as int];
                        assert forall|n: u32| tj.push(x).to_set().contains(n) == tj.to_set().insert(x).contains(n) by {
                            if tj.push(x).contains(n) && n != x {
                                let k = choose|k: int| 0 <= k < tj.push(x).len() && tj.push(x)[k] == n;
                                assert(tj[k] == n);
                            }
                            if tj.contains(n) {
                                let k = choose|k: int| 0 <= k < tj.len() && tj[k] == n;
                                assert(tj.push(x)[k] == n);
                            }
                            assert(tj.push(x)[j as int] == x);
                        }
                        assert(tj.push(x).to_set() =~= tj.to_set().insert(x));
                        assert(unique_nodes@ =~= before + element.nodes@.take(j + 1).to_set());
                    }
                    j += 1;
                }
                proof {
                    assert(element.nodes@.take(j as int) =~= element.nodes@);
                    lemma_group_nodes_step(elements@, members, i as int);
                }
            } else {
                proof {
                    lemma_group_nodes_step(elements@, members, i as int);
                }
            }
            i += 1;
        }
        proof {
            assert(elements@.take(i as int) =~= elements@);
        }
        self.stats = GroupStatistics { shell_count: shells, beam_count: beams, column_count: columns, total_nodes: unique_nodes.len() };
        self.group_type = if shells > beams && shells - beams > columns {
            ElementType::Shell
        } else if beams > columns {
            ElementType::Beam
        } else if columns > 0 {
            ElementType::Column
        } else {
            ElementType::Unknown
        };
    }
}

proof fn lemma_group_nodes_step(elems: Seq<LiraElement>, members: Seq<u32>, i: int)
    requires
        0 <= i < elems.len(),
    ensures
        group_nodes(elems.take(i + 1), members) == if members.contains(elems[i].id) {
            group_nodes(elems.take(i), members) + elems[i].nodes@.to_set()
        } else {
            group_nodes(elems.take(i), members)
        },
{
    let a = group_nodes(elems.take(i + 1), members);
    let b = group_nodes(elems.take(i), members);
    assert forall|n: u32| a.contains(n) == (if members.contains(elems[i].id) {
        b + elems[i].nodes@.to_set()
    } else {
        b
    }).contains(n) by {
        if a.contains(n) {
            let k = choose|k: int|
                0 <= k < i + 1 && members.contains(elems.take(i + 1)[k].id) && #[trigger] elems.take(i + 1)[k].nodes@.contains(n);
            if k < i {
                assert(elems.take(i)[k] == elems[k]);
            }
        }
        if b.contains(n) {
            let k = choose|k: int|
                0 <= k < i && members.contains(elems.take(i)[k].id) && #[trigger] elems.take(i)[k].nodes@.contains(n);
            assert(elems.take(i + 1)[k] == elems[k]);
        }
        if members.contains(elems[i].id) && elems[i].nodes@.to_set().contains(n) {
            assert(elems.take(i + 1)[i] == elems[i]);
        }
    }
    assert(a =~= if members.contains(elems[i].id) {
        b + elems[i].nodes@.to_set()
    } else {
        b
    });
}

/// What is known of a model file besides its elements.
#[derive(Debug)]
pub struct FileMetadata {
    /// Name of the file
    pub filename: String,
    /// LIRA version, where the file gives it
    pub lira_version: Option<String>,
    /// Date of creation, where the file gives it
    pub created_date: Option<String>,
    /// Comment lines of the file, in order
    pub comments: Vec<String>,
}

impl Default for FileMetadata {
    /// No name, no version, no date, no comments.
    fn default() -> (m: Self)
        ensures
            m.filename@ == Seq::<char>::empty(),
            m.lira_version is None,
            m.created_date is None,
            m.comments@.len() == 0,
    {
        FileMetadata { filename: String::new(), lira_version: None, created_date: None, comments: Vec::new() }
    }
}

/// A numbered document of a LIRA file and its text.
#[derive(Debug)]
pub struct Document {
    /// Number of the document
    pub id: String,
    /// Text of the document
    pub content: String,
}


/// The prevailing kind of a group follows its counters: it is plates
/// exactly when plates outnumber beams and columns together; a kind that
/// outnumbers the two others together prevails; a column group has at least
/// as many columns as beams; and a group is of unknown kind exactly when it
/// counts no plate, beam or column.
pub proof fn law_prevailing_kind(g: ConnectedGroup, elems: Seq<LiraElement>)
    requires
        statistics_hold(g, elems),
    ensures
        g.group_type == ElementType::Shell <==> g.stats.shell_count > g.stats.beam_count
            + g.stats.column_count,
        g.stats.beam_count > g.stats.shell_count + g.stats.column_count ==> g.group_type
            == ElementType::Beam,
        g.stats.column_count > g.stats.shell_count + g.stats.beam_count ==> g.group_type
            == ElementType::Column,
        g.group_type == ElementType::Column ==> g.stats.column_count > 0
            && g.stats.column_count >= g.stats.beam_count,
        g.group_type == ElementType::Beam ==> g.stats.beam_count > g.stats.column_count,
        g.group_type == ElementType::Unknown <==> g.stats.shell_count + g.stats.beam_count
            + g.stats.column_count == 0,
{
}

} // verus!
