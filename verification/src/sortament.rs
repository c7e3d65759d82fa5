use vstd::prelude::*;

verus! {

/// Diameters (mm) of the standard reinforcement range, ascending.
pub open spec fn standard_diameters() -> Seq<u32> {
    seq![3u32, 4, 6, 8, 10, 12, 14, 16, 18, 20, 22, 25, 28, 32, 36, 40, 45, 50, 55, 60, 70, 80]
}

/// All diameters of the standard range, ascending.
pub fn get_all_diameters() -> (d: Vec<u32>)
    ensures
        d@ == standard_diameters(),
{
    let d = vec![3u32, 4, 6, 8, 10, 12, 14, 16, 18, 20, 22, 25, 28, 32, 36, 40, 45, 50, 55, 60, 70, 80];
    assert(d@ =~= standard_diameters());
    d
}

/// Whether a diameter belongs to the standard range.
pub fn is_diameter_valid(diameter: u32) -> (r: bool)
    ensures
        r == standard_diameters().contains(diameter),
{
    let all = get_all_diameters();
    let mut i: usize = 0;
    while i < all.len()
        invariant
            all@ == standard_diameters(),
            i <= all.len(),
            forall|k: int| 0 <= k < i ==> all@[k] != diameter,
        decreases all.len() - i,
    {
        if all[i] == diameter {
            assert(all@[i as int] == diameter);
            return true;
        }
        i += 1;
    }
    false
}

/// The standard diameters that occur in `available`, ascending and without
/// repeats: the range that a user-chosen set of diameters selects.
pub fn select_available_diameters(available: &[u32]) -> (d: Vec<u32>)
    ensures
        d@ == standard_diameters().filter(|x: u32| available@.contains(x)),
{
    let all = get_all_diameters();
    let ghost pred = |x: u32| available@.contains(x);
    let mut d: Vec<u32> = Vec::new();
    let mut i: usize = 0;
    while i < all.len()
        invariant
            all@ == standard_diameters(),
            i <= all.len(),
            pred == (|x: u32| available@.contains(x)),
            d@ == all@.take(i as int).filter(pred),
        decreases all.len() - i,
    {
        let x = all[i];
        let mut found = false;
        let mut j: usize = 0;
        while j < available.len()
            invariant
                j <= available.len(),
                found == available@.take(j as int).contains(x),
            decreases available.len() - j,
        {
            proof {
                let t = available@.take(j as int);
                assert(available@.take(j + 1) =~= t.push(available@[j as int]));
                if t.push(available@[j as int]).contains(x) && !t.contains(x) {
                    let k = choose|k: int| 0 <= k < t.len() + 1 && t.push(available@[j as int])[k] == x;
                    assert(k == t.len());
                }
                if t.contains(x) {
                    let k = choose|k: int| 0 <= k < t.len() && t[k] == x;
                    assert(t.push(available@[j as int])[k] == x);
                }
                assert(t.push(available@[j as int])[t.len() as int] == available@[j as int]);
            }
            if available[j] == x {
                found = true;
            }
            j += 1;
        }
        proof {
            assert(available@.take(j as int) =~= available@);
            reveal(Seq::filter);
            let t1 = all@.take(i + 1);
            assert(t1.drop_last() =~= all@.take(i as int));
            assert(t1.last() == x);
            assert(pred(x) == found);
        }
        if found {
            d.push(x);
        }
        i += 1;
    }
    proof {
        assert(all@.take(i as int) =~= all@);
    }
    d
}

/// The diameters of the standard range, as `get_all_diameters` lists them,
/// ascend strictly: the list is sorted and holds no repeat.
pub proof fn law_all_diameters_ascend()
    ensures
        forall|i: int, j: int|
            0 <= i < j < standard_diameters().len() ==> standard_diameters()[i]
                < standard_diameters()[j],
{
    let s = standard_diameters();
    assert forall|k: int| 0 <= k < s.len() - 1 implies #[trigger] s[k] < s[k + 1] by {
        if k == 0 {
            assert(s[0] < s[1]);
        } else if k == 1 {
            assert(s[1] < s[2]);
        } else if k == 2 {
            assert(s[2] < s[3]);
        } else if k == 3 {
            assert(s[3] < s[4]);
        } else if k == 4 {
            assert(s[4] < s[5]);
        } else if k == 5 {
            assert(s[5] < s[6]);
        } else if k == 6 {
            assert(s[6] < s[7]);
        } else if k == 7 {
            assert(s[7] < s[8]);
        } else if k == 8 {
            assert(s[8] < s[9]);
        } else if k == 9 {
            assert(s[9] < s[10]);
        } else if k == 10 {
            assert(s[10] < s[11]);
        } else if k == 11 {
            assert(s[11] < s[12]);
        } else if k == 12 {
            assert(s[12] < s[13]);
        } else if k == 13 {
            assert(s[13] < s[14]);
        } else if k == 14 {
            assert(s[14] < s[15]);
        } else if k == 15 {
            assert(s[15] < s[16]);
        } else if k == 16 {
            assert(s[16] < s[17]);
        } else if k == 17 {
            assert(s[17] < s[18]);
        } else if k == 18 {
            assert(s[18] < s[19]);
        } else if k == 19 {
            assert(s[19] < s[20]);
        } else if k == 20 {
            assert(s[20] < s[21]);
        }
    }
    assert forall|i: int, j: int| 0 <= i < j < s.len() implies s[i] < s[j] by {
        lemma_ascending_from_steps(s, i, j);
    }
}

proof fn lemma_ascending_from_steps(s: Seq<u32>, i: int, j: int)
    requires
        forall|k: int| 0 <= k < s.len() - 1 ==> #[trigger] s[k] < s[k + 1],
        0 <= i < j < s.len(),
    ensures
        s[i] < s[j],
    decreases j - i,
{
    if j > i + 1 {
        lemma_ascending_from_steps(s, i, j - 1);
        assert(s[j - 1] < s[(j - 1) + 1]);
    }
}

/// The standard (GOST) range as (diameter in mm, cross-section area in
/// thousandths of a cm²) pairs, ascending by diameter.
pub open spec fn standard_sortament() -> Seq<(u32, u32)> {
    seq![
        (3u32, 71u32), (4, 126), (6, 283), (8, 503), (10, 785), (12, 1131), (14, 1540),
        (16, 2010), (18, 2540), (20, 3140), (22, 3800), (25, 4910), (28, 6160), (32, 8010),
        (36, 10180), (40, 12570), (45, 15900), (50, 19630), (55, 23760), (60, 28270),
        (70, 38480), (80, 50270),
    ]
}

/// The area of the first entry of `table` with diameter `d`.
pub open spec fn area_in(table: Seq<(u32, u32)>, d: u32) -> Option<u32>
    decreases table.len(),
{
    if table.len() == 0 {
        None
    } else if table[0].0 == d {
        Some(table[0].1)
    } else {
        area_in(table.drop_first(), d)
    }
}

/// The cross-section area of a standard diameter in thousandths of a cm²
/// (1.131 cm² for 12 mm is 1131), or `None` for a diameter outside the range.
pub fn get_area_thousandths(diameter: u32) -> (r: Option<u32>)
    ensures
        r == area_in(standard_sortament(), diameter),
{
    let table: Vec<(u32, u32)> = vec![
        (3u32, 71u32), (4, 126), (6, 283), (8, 503), (10, 785), (12, 1131), (14, 1540),
        (16, 2010), (18, 2540), (20, 3140), (22, 3800), (25, 4910), (28, 6160), (32, 8010),
        (36, 10180), (40, 12570), (45, 15900), (50, 19630), (55, 23760), (60, 28270),
        (70, 38480), (80, 50270),
    ];
    assert(table@ =~= standard_sortament());
    let ghost t = table@;
    let mut i: usize = 0;
    assert(t.skip(0) =~= t);
    while i < table.len()
        invariant
            i <= table.len(),
            t == table@,
            t == standard_sortament(),
            area_in(t, diameter) == area_in(t.skip(i as int), diameter),
        decreases table.len() - i,
    {
        assert(t.skip(i as int)[0] == t[i as int]);
        if table[i].0 == diameter {
            return Some(table[i].1);
        }
        assert(t.skip(i as int).drop_first() =~= t.skip(i + 1));
        i += 1;
    }
    assert(t.skip(i as int).len() == 0);
    None
}

/// A diameter has an area exactly when it belongs to the standard range, and
/// the range's diameters are those of the area table in the same order.
pub proof fn law_areas_cover_the_range(d: u32)
    ensures
        area_in(standard_sortament(), d) is Some <==> standard_diameters().contains(d),
        standard_sortament().map_values(|p: (u32, u32)| p.0) == standard_diameters(),
{
    let t = standard_sortament();
    assert(t.map_values(|p: (u32, u32)| p.0) =~= standard_diameters());
    lemma_area_in(t, d);
    if standard_diameters().contains(d) {
        let i = choose|i: int| 0 <= i < standard_diameters().len() && standard_diameters()[i] == d;
        assert(t.map_values(|p: (u32, u32)| p.0)[i] == d);
    }
}

/// `area_in` finds a diameter exactly when some entry has it.
proof fn lemma_area_in(t: Seq<(u32, u32)>, d: u32)
    ensures
        area_in(t, d) is Some <==> t.map_values(|p: (u32, u32)| p.0).contains(d),
    decreases t.len(),
{
    if t.len() > 0 {
        lemma_area_in(t.drop_first(), d);
        let ks = t.map_values(|p: (u32, u32)| p.0);
        let rest = t.drop_first().map_values(|p: (u32, u32)| p.0);
        assert(rest =~= ks.drop_first());
        if ks.contains(d) && t[0].0 != d {
            let i = choose|i: int| 0 <= i < ks.len() && ks[i] == d;
            assert(rest[i - 1] == d);
        }
        if rest.contains(d) {
            let i = choose|i: int| 0 <= i < rest.len() && rest[i] == d;
            assert(ks[i + 1] == d);
        }
        if t[0].0 == d {
            assert(ks[0] == d);
        }
    }
}

/// Whether `a` thousandths of a cm² is the cross-section π·d²/400 cm² of a
/// bar of `d` mm to within 1%, for any π between 3.1415 and 3.1416: `a` lies
/// between 0.99 and 1.01 times 2.5·π·d².
pub open spec fn is_bar_section(d: int, a: int) -> bool {
    &&& 10_000_000 * a <= 101 * 25 * 31415 * (d * d)
    &&& 10_000_000 * a >= 99 * 25 * 31416 * (d * d)
}

/// Every area of the table is the cross-section of its bar, to within 1%.
pub proof fn law_areas_are_bar_sections(i: int)
    requires
        0 <= i < standard_sortament().len(),
    ensures
        is_bar_section(standard_sortament()[i].0 as int, standard_sortament()[i].1 as int),
{
    let t = standard_sortament();
    if i == 0 {
        assert(t[0] == (3u32, 71u32));
        assert(is_bar_section(3, 71)) by (nonlinear_arith);
    } else if i == 1 {
        assert(t[1] == (4u32, 126u32));
        assert(is_bar_section(4, 126)) by (nonlinear_arith);
    } else if i == 2 {
        assert(t[2] == (6u32, 283u32));
        assert(is_bar_section(6, 283)) by (nonlinear_arith);
    } else if i == 3 {
        assert(t[3] == (8u32, 503u32));
        assert(is_bar_section(8, 503)) by (nonlinear_arith);
    } else if i == 4 {
        assert(t[4] == (10u32, 785u32));
        assert(is_bar_section(10, 785)) by (nonlinear_arith);
    } else if i == 5 {
        assert(t[5] == (12u32, 1131u32));
        assert(is_bar_section(12, 1131)) by (nonlinear_arith);
    } else if i == 6 {
        assert(t[6] == (14u32, 1540u32));
        assert(is_bar_section(14, 1540)) by (nonlinear_arith);
    } else if i == 7 {
        assert(t[7] == (16u32, 2010u32));
        assert(is_bar_section(16, 2010)) by (nonlinear_arith);
    } else if i == 8 {
        assert(t[8] == (18u32, 2540u32));
        assert(is_bar_section(18, 2540)) by (nonlinear_arith);
    } else if i == 9 {
        assert(t[9] == (20u32, 3140u32));
        assert(is_bar_section(20, 3140)) by (nonlinear_arith);
    } else if i == 10 {
        assert(t[10] == (22u32, 3800u32));
        assert(is_bar_section(22, 3800)) by (nonlinear_arith);
    } else if i == 11 {
        assert(t[11] == (25u32, 4910u32));
        assert(is_bar_section(25, 4910)) by (nonlinear_arith);
    } else if i == 12 {
        assert(t[12] == (28u32, 6160u32));
        assert(is_bar_section(28, 6160)) by (nonlinear_arith);
    } else if i == 13 {
        assert(t[13] == (32u32, 8010u32));
        assert(is_bar_section(32, 8010)) by (nonlinear_arith);
    } else if i == 14 {
        assert(t[14] == (36u32, 10180u32));
        assert(is_bar_section(36, 10180)) by (nonlinear_arith);
    } else if i == 15 {
        assert(t[15] == (40u32, 12570u32));
        assert(is_bar_section(40, 12570)) by (nonlinear_arith);
    } else if i == 16 {
        assert(t[16] == (45u32, 15900u32));
        assert(is_bar_section(45, 15900)) by (nonlinear_arith);
    } else if i == 17 {
        assert(t[17] == (50u32, 19630u32));
        assert(is_bar_section(50, 19630)) by (nonlinear_arith);
    } else if i == 18 {
        assert(t[18] == (55u32, 23760u32));
        assert(is_bar_section(55, 23760)) by (nonlinear_arith);
    } else if i == 19 {
        assert(t[19] == (60u32, 28270u32));
        assert(is_bar_section(60, 28270)) by (nonlinear_arith);
    } else if i == 20 {
        assert(t[20] == (70u32, 38480u32));
        assert(is_bar_section(70, 38480)) by (nonlinear_arith);
    } else if i == 21 {
        assert(t[21] == (80u32, 50270u32));
        assert(is_bar_section(80, 50270)) by (nonlinear_arith);
    }
}

} // verus!
