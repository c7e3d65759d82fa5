use crate::types::{ConnectedGroup, ElementType, LiraElement};
use vstd::prelude::*;

verus! {

/// Page margins of a report, in twentieths of a point.
#[derive(Debug, Clone, Copy, PartialEq, Eq, Structural)]
pub struct PageMargins {
    pub top: i32,
    pub right: i32,
    pub bottom: i32,
    pub left: i32,
}

/// Layout of a report document.
#[derive(Debug, Clone)]
pub struct DocumentSettings {
    /// Title of the document
    pub title: String,
    /// Author
    pub author: String,
    /// Image size in English Metric Units
    pub image_width_emu: u32,
    pub image_height_emu: u32,
    /// Page size in twentieths of a point
    pub page_width: u32,
    pub page_height: u32,
    /// Page margins
    pub margins: PageMargins,
}

/// English Metric Units per inch.
pub const EMU_PER_INCH: u32 = 914400;

impl Default for DocumentSettings {
    /// Landscape A4 with half-inch margins and 6 x 4 inch images.
    fn default() -> (s: Self)
        ensures
            s.title@ == "Анализ связных компонент LIRA"@,
            s.author@ == "LIRA Analyzer"@,
            s.image_width_emu == 6 * EMU_PER_INCH,
            s.image_height_emu == 4 * EMU_PER_INCH,
            s.page_width == 16838,
            s.page_height == 11906,
            s.margins == (PageMargins { top: 720, right: 720, bottom: 720, left: 720 }),
    {
        DocumentSettings {
            title: "Анализ связных компонент LIRA".to_owned(),
            author: "LIRA Analyzer".to_owned(),
            image_width_emu: 6 * EMU_PER_INCH,
            image_height_emu: 4 * EMU_PER_INCH,
            page_width: 16838,
            page_height: 11906,
            margins: PageMargins { top: 720, right: 720, bottom: 720, left: 720 },
        }
    }
}

/// Most groups that a report shows.
pub const MAX_GROUPS_TO_VISUALIZE: usize = 20;

/// Largest group whose element numbers a report lists.
pub const MAX_LISTED_ELEMENTS: usize = 20;

/// The groups of more than one element, in order.
pub open spec fn significant_groups(gs: Seq<ConnectedGroup>) -> Seq<ConnectedGroup>
    decreases gs.len(),
{
    if gs.len() == 0 {
        gs
    } else if gs.last().elements@.len() > 1 {
        significant_groups(gs.drop_last()).push(gs.last())
    } else {
        significant_groups(gs.drop_last())
    }
}

/// The first `n` of `s`, or all of it.
pub open spec fn at_most(s: Seq<ConnectedGroup>, n: nat) -> Seq<ConnectedGroup> {
    if s.len() > n {
        s.take(n as int)
    } else {
        s
    }
}

/// The groups that a report shows: those of more than one element, at most
/// `MAX_GROUPS_TO_VISUALIZE` of them, in order.
pub fn select_report_groups(groups: Vec<ConnectedGroup>) -> (r: Vec<ConnectedGroup>)
    ensures
        r@ == at_most(significant_groups(groups@), MAX_GROUPS_TO_VISUALIZE as nat),
{
    let ghost original = groups@;
    let mut rest = groups;
    let mut reversed: Vec<ConnectedGroup> = Vec::new();
    while rest.len() > 0
        invariant
            rest@ + reversed@.reverse() == original,
        decreases rest@.len(),
    {
        let ghost before_rest = rest@;
        let ghost before_rev = reversed@;
        let g = rest.pop().unwrap();
        reversed.push(g);
        proof {
            assert(reversed@.reverse() =~= seq![g] + before_rev.reverse());
            assert(before_rest =~= rest@.push(g));
            assert(rest@ + reversed@.reverse() =~= before_rest + before_rev.reverse());
        }
    }
    proof {
        assert(reversed@.reverse() =~= original);
    }
    let mut kept: Vec<ConnectedGroup> = Vec::new();
    let ghost mut taken: Seq<ConnectedGroup> = Seq::empty();
    proof {
        assert(taken + reversed@.reverse() =~= original);
    }
    while reversed.len() > 0
        invariant
            taken + reversed@.reverse() == original,
            kept@ == at_most(significant_groups(taken), MAX_GROUPS_TO_VISUALIZE as nat),
        decreases reversed@.len(),
    {
        let ghost before_rev = reversed@;
        let g = reversed.pop().unwrap();
        proof {
            assert(before_rev.reverse() =~= seq![g] + reversed@.reverse());
            assert(taken.push(g) + reversed@.reverse() =~= taken + before_rev.reverse());
            assert(taken.push(g).drop_last() =~= taken);
            taken = taken.push(g);
        }
        if g.elements.len() > 1 && kept.len() < MAX_GROUPS_TO_VISUALIZE {
            kept.push(g);
        }
        proof {
            let prev = significant_groups(taken.drop_last());
            if g.elements@.len() > 1 {
                assert(significant_groups(taken) == prev.push(g));
                if prev.len() < MAX_GROUPS_TO_VISUALIZE {
                    assert(kept@ =~= at_most(significant_groups(taken), MAX_GROUPS_TO_VISUALIZE as nat));
                } else {
                    assert(prev.push(g).take(MAX_GROUPS_TO_VISUALIZE as int) =~= prev.take(
                        MAX_GROUPS_TO_VISUALIZE as int,
                    ));
                }
            }
        }
    }
    proof {
        assert(taken =~= original);
    }
    kept
}

/// How many elements of `elems` are plates.
pub open spec fn shell_total(elems: Seq<LiraElement>) -> nat
    decreases elems.len(),
{
    if elems.len() == 0 {
        0
    } else {
        shell_total(elems.drop_last()) + if elems.last().element_type == ElementType::Shell {
            1nat
        } else {
            0nat
        }
    }
}

/// How many elements of `elems` are bars: beams and columns.
pub open spec fn bar_total(elems: Seq<LiraElement>) -> nat
    decreases elems.len(),
{
    if elems.len() == 0 {
        0
    } else {
        bar_total(elems.drop_last()) + if elems.last().element_type == ElementType::Beam
            || elems.last().element_type == ElementType::Column {
            1nat
        } else {
            0nat
        }
    }
}

/// The general figures of a report's title page.
#[derive(Debug, Clone, Copy, PartialEq, Eq, Structural)]
pub struct ReportOverview {
    /// All elements
    pub total_elements: usize,
    /// Plate elements
    pub shell_elements: usize,
    /// Bar elements (beams and columns)
    pub bar_elements: usize,
    /// Groups shown
    pub groups: usize,
}

/// The general figures of a report on `elements` and `groups`.
pub fn report_overview(elements: &[LiraElement], groups: &[ConnectedGroup]) -> (o: ReportOverview)
    ensures
        o.total_elements == elements@.len(),
        o.shell_elements == shell_total(elements@),
        o.bar_elements == bar_total(elements@),
        o.groups == groups@.len(),
{
    let mut shells: usize = 0;
    let mut bars: usize = 0;
    let mut i: usize = 0;
    while i < elements.len()
        invariant
            i <= elements@.len(),
            shells == shell_total(elements@.take(i as int)),
            bars == bar_total(elements@.take(i as int)),
            shells <= i,
            bars <= i,
        decreases elements@.len() - i,
    {
        proof {
            assert(elements@.take(i + 1).drop_last() =~= elements@.take(i as int));
        }
        if elements[i].is_shell() {
            shells += 1;
        }
        if elements[i].is_beam() {
            bars += 1;
        }
        i += 1;
    }
    proof {
        assert(elements@.take(elements@.len() as int) =~= elements@);
    }
    ReportOverview { total_elements: elements.len(), shell_elements: shells, bar_elements: bars, groups: groups.len() }
}

/// A row of a report's summary table.
#[derive(Debug, Clone, Copy, PartialEq, Eq, Structural)]
pub struct GroupRow {
    /// Number of the row, from 1
    pub number: usize,
    /// Elements of the group
    pub elements: usize,
    /// Prevailing kind
    pub group_type: ElementType,
    /// Plates of the group
    pub shells: usize,
    /// Bars of the group: beams and columns
    pub bars: usize,
}

/// The summary row of group `index` (counted from 0).
pub fn group_row(index: usize, group: &ConnectedGroup) -> (r: GroupRow)
    requires
        index < usize::MAX,
        group.stats.beam_count + group.stats.column_count <= usize::MAX,
    ensures
        r.number == index + 1,
        r.elements == group.elements@.len(),
        r.group_type == group.group_type,
        r.shells == group.stats.shell_count,
        r.bars == group.stats.beam_count + group.stats.column_count,
{
    GroupRow {
        number: index + 1,
        elements: group.elements.len(),
        group_type: group.group_type,
        shells: group.stats.shell_count,
        bars: group.stats.beam_count + group.stats.column_count,
    }
}

/// Whether a report lists the element numbers of `group`: only for groups of
/// at most `MAX_LISTED_ELEMENTS` elements.
pub fn lists_elements(group: &ConnectedGroup) -> (r: bool)
    ensures
        r == (group.elements@.len() <= MAX_LISTED_ELEMENTS),
{
    group.elements.len() <= MAX_LISTED_ELEMENTS
}

/// The plates and the bars of a model are counted apart: together they are
/// never more than the elements; a model of plates only counts every element
/// as a plate, and one of beams and columns only counts every element as a
/// bar.
pub proof fn law_plate_and_bar_totals(elems: Seq<LiraElement>)
    ensures
        shell_total(elems) + bar_total(elems) <= elems.len(),
        (forall|i: int| 0 <= i < elems.len() ==> #[trigger] elems[i].element_type
            == ElementType::Shell) ==> shell_total(elems) == elems.len() && bar_total(elems) == 0,
        (forall|i: int|
            0 <= i < elems.len() ==> #[trigger] elems[i].element_type == ElementType::Beam
                || elems[i].element_type == ElementType::Column) ==> bar_total(elems) == elems.len()
            && shell_total(elems) == 0,
    decreases elems.len(),
{
    if elems.len() > 0 {
        let init = elems.drop_last();
        law_plate_and_bar_totals(init);
        if forall|i: int| 0 <= i < elems.len() ==> #[trigger] elems[i].element_type == ElementType::Shell {
            assert forall|i: int| 0 <= i < init.len() implies #[trigger] init[i].element_type
                == ElementType::Shell by {
                assert(init[i] == elems[i]);
            }
            assert(elems[elems.len() - 1].element_type == ElementType::Shell);
        }
        if forall|i: int|
            0 <= i < elems.len() ==> #[trigger] elems[i].element_type == ElementType::Beam
                || elems[i].element_type == ElementType::Column {
            assert forall|i: int| 0 <= i < init.len() implies #[trigger] init[i].element_type
                == ElementType::Beam || init[i].element_type == ElementType::Column by {
                assert(init[i] == elems[i]);
            }
            assert(elems[elems.len() - 1].element_type == ElementType::Beam || elems[elems.len()
                - 1].element_type == ElementType::Column);
        }
    }
}

/// A report shows only groups of more than one element, at most
/// `MAX_GROUPS_TO_VISUALIZE` of them, each taken from the analysis; and every
/// group of more than one element is among the candidates, so that all of
/// them are shown when there are few enough.
pub proof fn law_report_groups(gs: Seq<ConnectedGroup>)
    ensures
        at_most(significant_groups(gs), MAX_GROUPS_TO_VISUALIZE as nat).len()
            <= MAX_GROUPS_TO_VISUALIZE,
        forall|i: int|
            0 <= i < significant_groups(gs).len() ==> #[trigger] significant_groups(gs)[i].elements@.len()
                > 1 && gs.contains(significant_groups(gs)[i]),
        forall|i: int|
            0 <= i < gs.len() && #[trigger] gs[i].elements@.len() > 1 ==> significant_groups(
                gs,
            ).contains(gs[i]),
        significant_groups(gs).len() <= MAX_GROUPS_TO_VISUALIZE ==> at_most(
            significant_groups(gs),
            MAX_GROUPS_TO_VISUALIZE as nat,
        ) == significant_groups(gs),
    decreases gs.len(),
{
    if gs.len() > 0 {
        let init = gs.drop_last();
        law_report_groups(init);
        let si = significant_groups(init);
        let s = significant_groups(gs);
        assert forall|i: int| 0 <= i < s.len() implies #[trigger] s[i].elements@.len() > 1
            && gs.contains(s[i]) by {
            if i < si.len() {
                assert(s[i] == si[i]);
                assert(si[i].elements@.len() > 1);
                assert(init.contains(si[i]));
                let j = choose|j: int| 0 <= j < init.len() && init[j] == si[i];
                assert(gs[j] == init[j]);
            } else {
                assert(s[i] == gs.last());
                assert(gs[gs.len() - 1] == gs.last());
            }
        }
        assert forall|i: int| 0 <= i < gs.len() && #[trigger] gs[i].elements@.len() > 1 implies s.contains(
            gs[i],
        ) by {
            if i < init.len() {
                assert(init[i] == gs[i]);
                let j = choose|j: int| 0 <= j < si.len() && si[j] == init[i];
                assert(s[j] == si[j]);
            } else {
                assert(s[s.len() - 1] == gs[i]);
            }
        }
    }
}

} // verus!
